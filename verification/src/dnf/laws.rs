//! What the conversion preserves.
//!
//! On any assignment of outcomes to the atoms, the evaluation of an
//! expression follows exactly one path of its decision tree. A cube evaluates
//! its literals under the same conditions as the tree, so it is `false` if it
//! leaves that path, an error if it passes through the node where the path
//! errors, and the path's own leaf if it is that path.

use vstd::prelude::*;

use crate::ast::{Expr, ExprKind, Prim, UnaryOp};
use crate::model::World;
use crate::outcome::EvaluationOutcome;
use crate::tree::{Op, Tree};

use super::paths::{Leaf, Route, Spot};
use super::{Conj, Dnf, Lit};

verus! {

/// How the evaluation of a path goes.
pub enum Fate {
    /// Every literal is true, and the path ends in this boolean.
    Reaches(bool),
    /// A literal is false, or the path contradicts itself.
    Leaves,
    /// A literal errors before any is false.
    Errs,
}

impl<T> Lit<T> {
    /// The outcome of the literal.
    pub open spec fn outcome(self, g: spec_fn(Tree) -> EvaluationOutcome) -> EvaluationOutcome {
        if self.negated {
            g(self.key()).flip()
        } else {
            g(self.key())
        }
    }

    /// The outcome of the conjunction of `lits`, evaluated left to right.
    pub open spec fn all(
        lits: Seq<Lit<T>>,
        g: spec_fn(Tree) -> EvaluationOutcome,
    ) -> EvaluationOutcome
        decreases lits.len(),
    {
        if lits.len() == 0 {
            EvaluationOutcome::True
        } else {
            match Self::all(lits.drop_last(), g) {
                EvaluationOutcome::True => lits.last().outcome(g),
                other => other,
            }
        }
    }
}

/// A conjunction is true where each of its literals is.
proof fn lemma_all_true<T>(lits: Seq<Lit<T>>, g: spec_fn(Tree) -> EvaluationOutcome, i: int)
    requires
        Lit::all(lits, g) == EvaluationOutcome::True,
        0 <= i < lits.len(),
    ensures
        lits[i].outcome(g) == EvaluationOutcome::True,
    decreases lits.len(),
{
    if i < lits.len() - 1 {
        lemma_all_true(lits.drop_last(), g, i);
    }
}

/// A conjunction of true literals is true.
proof fn lemma_all_of<T>(lits: Seq<Lit<T>>, g: spec_fn(Tree) -> EvaluationOutcome)
    requires
        forall|k: int|
            0 <= k < lits.len() ==> (#[trigger] lits[k]).outcome(g) == EvaluationOutcome::True,
    ensures
        Lit::all(lits, g) == EvaluationOutcome::True,
    decreases lits.len(),
{
    if lits.len() > 0 {
        let front = lits.drop_last();
        assert forall|k: int| 0 <= k < front.len() implies (#[trigger] front[k]).outcome(g)
            == EvaluationOutcome::True by {
            assert(front[k] == lits[k]);
        }
        lemma_all_of(front, g);
        assert(lits[lits.len() - 1] == lits.last());
    }
}

/// A conjunction starts with its first literal.
proof fn lemma_all_first<T>(lits: Seq<Lit<T>>, g: spec_fn(Tree) -> EvaluationOutcome)
    requires
        lits.len() > 0,
    ensures
        Lit::all(lits, g) == (match lits[0].outcome(g) {
            EvaluationOutcome::True => Lit::all(lits.drop_first(), g),
            other => other,
        }),
    decreases lits.len(),
{
    if lits.len() > 1 {
        lemma_all_first(lits.drop_last(), g);
        assert(lits.drop_last().drop_first() =~= lits.drop_first().drop_last());
        assert(lits.drop_first().last() == lits.last());
    } else {
        assert(lits.drop_last() =~= seq![]);
        assert(lits.drop_first() =~= seq![]);
    }
}

/// A determined atom is determined by one of the literals.
proof fn lemma_find<T>(lits: Seq<Lit<T>>, key: Tree) -> (i: int)
    requires
        Route::find(lits, key) is Some,
    ensures
        0 <= i < lits.len(),
        lits[i].key() == key,
        Route::find(lits, key) == Some(lits[i].negated),
    decreases lits.len(),
{
    if lits[0].key() == key {
        0
    } else {
        let i = lemma_find(lits.drop_first(), key);
        i + 1
    }
}

impl<T> Route<T> {
    /// How the evaluation of the path goes.
    pub open spec fn fate(self, g: spec_fn(Tree) -> EvaluationOutcome) -> Fate {
        match Lit::all(self.lits, g) {
            EvaluationOutcome::True => match self.leaf {
                Leaf::True => Fate::Reaches(true),
                Leaf::False => Fate::Reaches(false),
                Leaf::Contradiction => Fate::Leaves,
            },
            EvaluationOutcome::False => Fate::Leaves,
            EvaluationOutcome::Error => Fate::Errs,
        }
    }

    /// How many of `routes` have the fate `f`.
    pub open spec fn count(
        routes: Seq<Route<T>>,
        g: spec_fn(Tree) -> EvaluationOutcome,
        f: Fate,
    ) -> nat
        decreases routes.len(),
    {
        if routes.len() == 0 {
            0
        } else {
            Self::count(routes.drop_last(), g, f) + if routes.last().fate(g) == f {
                1nat
            } else {
                0nat
            }
        }
    }

    /// The evaluation whose outcome is `o` follows one of `routes`.
    pub open spec fn follows(
        routes: Seq<Route<T>>,
        g: spec_fn(Tree) -> EvaluationOutcome,
        o: EvaluationOutcome,
    ) -> bool {
        match o {
            EvaluationOutcome::True => {
                &&& Self::count(routes, g, Fate::Reaches(true)) == 1
                &&& Self::count(routes, g, Fate::Reaches(false)) == 0
                &&& Self::count(routes, g, Fate::Errs) == 0
            },
            EvaluationOutcome::False => {
                &&& Self::count(routes, g, Fate::Reaches(true)) == 0
                &&& Self::count(routes, g, Fate::Reaches(false)) == 1
                &&& Self::count(routes, g, Fate::Errs) == 0
            },
            EvaluationOutcome::Error => {
                &&& Self::count(routes, g, Fate::Reaches(true)) == 0
                &&& Self::count(routes, g, Fate::Reaches(false)) == 0
                &&& Self::count(routes, g, Fate::Errs) > 0
            },
        }
    }
}

/// A continued path starts like the path, and goes on like its continuation
/// where the path is followed to its end.
proof fn lemma_extend<T>(
    lits: Seq<Lit<T>>,
    rest: Seq<Lit<T>>,
    leaf: Leaf,
    g: spec_fn(Tree) -> EvaluationOutcome,
)
    ensures
        ({
            let r = Route::extend(lits, rest, leaf);
            match Lit::all(lits, g) {
                EvaluationOutcome::True => r.fate(g) == (Route { lits: rest, leaf }).fate(g),
                EvaluationOutcome::False => r.fate(g) == Fate::Leaves,
                EvaluationOutcome::Error => r.fate(g) == Fate::Errs,
            }
        }),
    decreases rest.len(),
{
    if rest.len() > 0 {
        lemma_all_first(rest, g);
        match Route::find(lits, rest[0].key()) {
            None => {
                assert(lits.push(rest[0]).drop_last() =~= lits);
                lemma_extend(lits.push(rest[0]), rest.drop_first(), leaf, g);
            },
            Some(negated) => {
                let i = lemma_find(lits, rest[0].key());
                if Lit::all(lits, g) == EvaluationOutcome::True {
                    lemma_all_true(lits, g, i);
                }
                if negated == rest[0].negated {
                    lemma_extend(lits, rest.drop_first(), leaf, g);
                }
            },
        }
    }
}

proof fn lemma_count_append<T>(
    a: Seq<Route<T>>,
    b: Seq<Route<T>>,
    g: spec_fn(Tree) -> EvaluationOutcome,
    f: Fate,
)
    ensures
        Route::count(a + b, g, f) == Route::count(a, g, f) + Route::count(b, g, f),
    decreases b.len(),
{
    if b.len() == 0 {
        assert(a + b =~= a);
    } else {
        assert((a + b).drop_last() =~= a + b.drop_last());
        lemma_count_append(a, b.drop_last(), g, f);
    }
}

proof fn lemma_count_one<T>(r: Route<T>, g: spec_fn(Tree) -> EvaluationOutcome, f: Fate)
    ensures
        Route::count(seq![r], g, f) == if r.fate(g) == f {
            1nat
        } else {
            0nat
        },
{
    assert(seq![r].drop_last() =~= seq![]);
    assert(Route::count(seq![r].drop_last(), g, f) == 0);
}

/// The continuations of a path fare like the path, or like what continues it.
proof fn lemma_onward<T>(
    r: Route<T>,
    subs: Seq<Route<T>>,
    g: spec_fn(Tree) -> EvaluationOutcome,
    f: Fate,
)
    ensures
        ({
            let n = Route::count(r.onward(Some(subs)), g, f);
            match Lit::all(r.lits, g) {
                EvaluationOutcome::True => n == Route::count(subs, g, f),
                EvaluationOutcome::False => n == if f == Fate::Leaves {
                    subs.len()
                } else {
                    0
                },
                EvaluationOutcome::Error => n == if f == Fate::Errs {
                    subs.len()
                } else {
                    0
                },
            }
        }),
    decreases subs.len(),
{
    let all = r.onward(Some(subs));
    if subs.len() > 0 {
        let s = subs.last();
        assert(all.drop_last() =~= r.onward(Some(subs.drop_last())));
        assert(all.last() == Route::extend(r.lits, s.lits, s.leaf));
        lemma_extend(r.lits, s.lits, s.leaf, g);
        assert(s == (Route { lits: s.lits, leaf: s.leaf }));
        lemma_onward(r, subs.drop_last(), g, f);
    }
}

/// What becomes of one path in a grafting.
proof fn lemma_graft_last<T>(
    rs: Seq<Route<T>>,
    t: Option<Seq<Route<T>>>,
    e: Option<Seq<Route<T>>>,
    g: spec_fn(Tree) -> EvaluationOutcome,
    f: Fate,
)
    requires
        rs.len() > 0,
        f != Fate::Leaves,
    ensures
        ({
            let n = Route::count(Route::graft(rs, t, e), g, f) - Route::count(
                Route::graft(rs.drop_last(), t, e),
                g,
                f,
            );
            let subs = match rs.last().leaf {
                Leaf::True => t,
                Leaf::False => e,
                Leaf::Contradiction => None,
            };
            match rs.last().fate(g) {
                Fate::Reaches(_) => n == (match subs {
                    Some(subs) => Route::count(subs, g, f),
                    None => if rs.last().fate(g) == f {
                        1
                    } else {
                        0
                    },
                }),
                Fate::Leaves => n == 0,
                Fate::Errs => n == if f == Fate::Errs {
                    match subs {
                        Some(subs) => subs.len(),
                        None => 1,
                    }
                } else {
                    0
                },
            }
        }),
{
    let r = rs.last();
    let subs = match r.leaf {
        Leaf::True => t,
        Leaf::False => e,
        Leaf::Contradiction => None,
    };
    let front = Route::graft(rs.drop_last(), t, e);
    lemma_count_append(front, r.onward(subs), g, f);
    match subs {
        Some(s) => {
            lemma_onward(r, s, g, f);
        },
        None => {
            lemma_count_one(r, g, f);
        },
    }
}

/// Where no path is followed to its end, no grafted one is.
proof fn lemma_graft_none<T>(
    rs: Seq<Route<T>>,
    t: Option<Seq<Route<T>>>,
    e: Option<Seq<Route<T>>>,
    g: spec_fn(Tree) -> EvaluationOutcome,
)
    requires
        Route::count(rs, g, Fate::Reaches(true)) == 0,
        Route::count(rs, g, Fate::Reaches(false)) == 0,
        t is Some ==> t->0.len() > 0,
        e is Some ==> e->0.len() > 0,
    ensures
        Route::count(Route::graft(rs, t, e), g, Fate::Reaches(true)) == 0,
        Route::count(Route::graft(rs, t, e), g, Fate::Reaches(false)) == 0,
        (Route::count(Route::graft(rs, t, e), g, Fate::Errs) > 0) == (Route::count(
            rs,
            g,
            Fate::Errs,
        ) > 0),
    decreases rs.len(),
{
    if rs.len() > 0 {
        lemma_graft_none(rs.drop_last(), t, e, g);
        lemma_graft_last(rs, t, e, g, Fate::Reaches(true));
        lemma_graft_last(rs, t, e, g, Fate::Reaches(false));
        lemma_graft_last(rs, t, e, g, Fate::Errs);
    }
}

/// Where one path is followed to its end, the grafted ones fare like what
/// continues it.
proof fn lemma_graft_one<T>(
    rs: Seq<Route<T>>,
    t: Option<Seq<Route<T>>>,
    e: Option<Seq<Route<T>>>,
    g: spec_fn(Tree) -> EvaluationOutcome,
    b: bool,
    f: Fate,
)
    requires
        Route::count(rs, g, Fate::Reaches(b)) == 1,
        Route::count(rs, g, Fate::Reaches(!b)) == 0,
        Route::count(rs, g, Fate::Errs) == 0,
        t is Some ==> t->0.len() > 0,
        e is Some ==> e->0.len() > 0,
        f != Fate::Leaves,
    ensures
        Route::count(Route::graft(rs, t, e), g, f) == (match (if b {
            t
        } else {
            e
        }) {
            Some(subs) => Route::count(subs, g, f),
            None => if f == Fate::Reaches(b) {
                1
            } else {
                0
            },
        }),
    decreases rs.len(),
{
    lemma_graft_last(rs, t, e, g, f);
    if rs.last().fate(g) == Fate::Reaches(b) {
        lemma_graft_none(rs.drop_last(), t, e, g);
    } else {
        lemma_graft_one(rs.drop_last(), t, e, g, b, f);
    }
}

/// What the branches lead to, put together.
proof fn lemma_graft_follows<T>(
    rs: Seq<Route<T>>,
    t: Option<Seq<Route<T>>>,
    e: Option<Seq<Route<T>>>,
    g: spec_fn(Tree) -> EvaluationOutcome,
    o: EvaluationOutcome,
    ot: EvaluationOutcome,
    oe: EvaluationOutcome,
)
    requires
        Route::follows(rs, g, o),
        t is Some ==> t->0.len() > 0,
        e is Some ==> e->0.len() > 0,
        match t {
            Some(t) => Route::follows(t, g, ot),
            None => ot == EvaluationOutcome::True,
        },
        match e {
            Some(e) => Route::follows(e, g, oe),
            None => oe == EvaluationOutcome::False,
        },
    ensures
        Route::follows(
            Route::graft(rs, t, e),
            g,
            match o {
                EvaluationOutcome::True => ot,
                EvaluationOutcome::False => oe,
                EvaluationOutcome::Error => EvaluationOutcome::Error,
            },
        ),
{
    match o {
        EvaluationOutcome::Error => {
            lemma_graft_none(rs, t, e, g);
        },
        EvaluationOutcome::True => {
            lemma_graft_one(rs, t, e, g, true, Fate::Reaches(true));
            lemma_graft_one(rs, t, e, g, true, Fate::Reaches(false));
            lemma_graft_one(rs, t, e, g, true, Fate::Errs);
        },
        EvaluationOutcome::False => {
            lemma_graft_one(rs, t, e, g, false, Fate::Reaches(true));
            lemma_graft_one(rs, t, e, g, false, Fate::Reaches(false));
            lemma_graft_one(rs, t, e, g, false, Fate::Errs);
        },
    }
}

/// Negated leaves are reached the other way round.
proof fn lemma_count_flipped<T>(
    rs: Seq<Route<T>>,
    g: spec_fn(Tree) -> EvaluationOutcome,
)
    ensures
        ({
            let fs = rs.map_values(|r: Route<T>| Route { lits: r.lits, leaf: r.leaf.flip() });
            &&& Route::count(fs, g, Fate::Reaches(true)) == Route::count(rs, g, Fate::Reaches(false))
            &&& Route::count(fs, g, Fate::Reaches(false)) == Route::count(rs, g, Fate::Reaches(true))
            &&& Route::count(fs, g, Fate::Errs) == Route::count(rs, g, Fate::Errs)
        }),
    decreases rs.len(),
{
    let flip = |r: Route<T>| Route { lits: r.lits, leaf: r.leaf.flip() };
    if rs.len() > 0 {
        assert(rs.map_values(flip).drop_last() =~= rs.drop_last().map_values(flip));
        lemma_count_flipped(rs.drop_last(), g);
    }
}

/// `g` gives `&&`, `||`, `!`, `if` and the boolean literals the outcomes that
/// short-circuiting, error-propagating evaluation gives them.
pub open spec fn respects_structure(g: spec_fn(Tree) -> EvaluationOutcome) -> bool {
    &&& forall|b: bool| #[trigger] g(Tree::bool(b)) == EvaluationOutcome::of_bool(b)
    &&& forall|a: Tree| g(#[trigger] Tree::not(a)) == g(a).flip()
    &&& forall|a: Tree, b: Tree|
        g(#[trigger] Tree::and(a, b)) == (match g(a) {
            EvaluationOutcome::True => g(b),
            other => other,
        })
    &&& forall|a: Tree, b: Tree|
        g(#[trigger] Tree::or(a, b)) == (match g(a) {
            EvaluationOutcome::False => g(b),
            other => other,
        })
    &&& forall|c: Tree, a: Tree, b: Tree|
        g(#[trigger] Tree::ite(c, a, b)) == (match g(c) {
            EvaluationOutcome::True => g(a),
            EvaluationOutcome::False => g(b),
            EvaluationOutcome::Error => EvaluationOutcome::Error,
        })
}

/// Interpreting the boolean structure over given atoms respects structure.
pub proof fn lemma_interp_respects_structure(f: spec_fn(Tree) -> EvaluationOutcome)
    ensures
        respects_structure(|t: Tree| t.interp(f)),
{
    assert forall|a: Tree| (#[trigger] Tree::not(a)).interp(f) == a.interp(f).flip() by {
        assert(Tree::not(a).kids[0] == a);
    }
    assert forall|a: Tree, b: Tree|
        (#[trigger] Tree::and(a, b)).interp(f) == (match a.interp(f) {
            EvaluationOutcome::True => b.interp(f),
            other => other,
        }) by {
        assert(Tree::and(a, b).kids[0] == a && Tree::and(a, b).kids[1] == b);
    }
    assert forall|a: Tree, b: Tree|
        (#[trigger] Tree::or(a, b)).interp(f) == (match a.interp(f) {
            EvaluationOutcome::False => b.interp(f),
            other => other,
        }) by {
        assert(Tree::or(a, b).kids[0] == a && Tree::or(a, b).kids[1] == b);
    }
    assert forall|c: Tree, a: Tree, b: Tree|
        (#[trigger] Tree::ite(c, a, b)).interp(f) == (match c.interp(f) {
            EvaluationOutcome::True => a.interp(f),
            EvaluationOutcome::False => b.interp(f),
            EvaluationOutcome::Error => EvaluationOutcome::Error,
        }) by {
        let t = Tree::ite(c, a, b);
        assert(t.kids[0] == c && t.kids[1] == a && t.kids[2] == b);
    }
}

impl Tree {
    /// The outcome of a boolean expression, where `atoms` gives the outcome of
    /// every node that is not `&&`, `||`, `!`, `if` or a boolean literal.
    pub open spec fn decided(self, atoms: spec_fn(Tree) -> EvaluationOutcome) -> EvaluationOutcome
        decreases self,
    {
        if self.op is Lit && self.op->Lit_0 is Bool {
            EvaluationOutcome::of_bool(self.op->Lit_0->Bool_0)
        } else if self.op == Op::Unary(UnaryOp::Not) && self.kids.len() == 1 {
            self.kids[0].decided(atoms).flip()
        } else if self.op == Op::And && self.kids.len() == 2 {
            match self.kids[0].decided(atoms) {
                EvaluationOutcome::True => self.kids[1].decided(atoms),
                other => other,
            }
        } else if self.op == Op::Or && self.kids.len() == 2 {
            match self.kids[0].decided(atoms) {
                EvaluationOutcome::False => self.kids[1].decided(atoms),
                other => other,
            }
        } else if self.op == Op::If && self.kids.len() == 3 {
            match self.kids[0].decided(atoms) {
                EvaluationOutcome::True => self.kids[1].decided(atoms),
                EvaluationOutcome::False => self.kids[2].decided(atoms),
                EvaluationOutcome::Error => EvaluationOutcome::Error,
            }
        } else {
            atoms(self)
        }
    }
}

/// Deciding the atoms respects structure.
proof fn lemma_decided_respects_structure(f: spec_fn(Tree) -> EvaluationOutcome)
    ensures
        respects_structure(|t: Tree| t.decided(f)),
{
    assert forall|a: Tree| (#[trigger] Tree::not(a)).decided(f) == a.decided(f).flip() by {
        assert(Tree::not(a).kids[0] == a);
    }
    assert forall|a: Tree, b: Tree|
        (#[trigger] Tree::and(a, b)).decided(f) == (match a.decided(f) {
            EvaluationOutcome::True => b.decided(f),
            other => other,
        }) by {
        assert(Tree::and(a, b).kids[0] == a && Tree::and(a, b).kids[1] == b);
    }
    assert forall|a: Tree, b: Tree|
        (#[trigger] Tree::or(a, b)).decided(f) == (match a.decided(f) {
            EvaluationOutcome::False => b.decided(f),
            other => other,
        }) by {
        assert(Tree::or(a, b).kids[0] == a && Tree::or(a, b).kids[1] == b);
    }
    assert forall|c: Tree, a: Tree, b: Tree|
        (#[trigger] Tree::ite(c, a, b)).decided(f) == (match c.decided(f) {
            EvaluationOutcome::True => a.decided(f),
            EvaluationOutcome::False => b.decided(f),
            EvaluationOutcome::Error => EvaluationOutcome::Error,
        }) by {
        let t = Tree::ite(c, a, b);
        assert(t.kids[0] == c && t.kids[1] == a && t.kids[2] == b);
    }
}

/// Evaluation on an input respects structure.
pub proof fn lemma_eval_respects_structure(w: World)
    ensures
        respects_structure(|t: Tree| t.outcome(w)),
{
    assert forall|a: Tree| (#[trigger] Tree::not(a)).outcome(w) == a.outcome(w).flip() by {
        assert(Tree::not(a).kids[0] == a);
    }
    assert forall|a: Tree, b: Tree|
        (#[trigger] Tree::and(a, b)).outcome(w) == (match a.outcome(w) {
            EvaluationOutcome::True => b.outcome(w),
            other => other,
        }) by {
        assert(Tree::and(a, b).kids[0] == a && Tree::and(a, b).kids[1] == b);
    }
    assert forall|a: Tree, b: Tree|
        (#[trigger] Tree::or(a, b)).outcome(w) == (match a.outcome(w) {
            EvaluationOutcome::False => b.outcome(w),
            other => other,
        }) by {
        assert(Tree::or(a, b).kids[0] == a && Tree::or(a, b).kids[1] == b);
    }
    assert forall|c: Tree, a: Tree, b: Tree|
        (#[trigger] Tree::ite(c, a, b)).outcome(w) == (match c.outcome(w) {
            EvaluationOutcome::True => a.outcome(w),
            EvaluationOutcome::False => b.outcome(w),
            EvaluationOutcome::Error => EvaluationOutcome::Error,
        }) by {
        let t = Tree::ite(c, a, b);
        assert(t.kids[0] == c && t.kids[1] == a && t.kids[2] == b);
    }
}

/// The evaluation of an expression follows exactly one path of its decision
/// tree.
proof fn lemma_routes_follow<T>(e: &Expr<T>, g: spec_fn(Tree) -> EvaluationOutcome)
    requires
        respects_structure(g),
    ensures
        Route::follows(e.routes(), g, g(e.tree())),
    decreases e,
{
    let t = e.tree();
    match &e.kind {
        ExprKind::Lit(Prim::Bool(b)) => {
            let r = Route::<T> { lits: seq![], leaf: if *b { Leaf::True } else { Leaf::False } };
            assert(t.kids =~= Tree::bool(*b).kids);
            lemma_count_one(r, g, Fate::Reaches(true));
            lemma_count_one(r, g, Fate::Reaches(false));
            lemma_count_one(r, g, Fate::Errs);
        },
        ExprKind::UnaryApp { op: UnaryOp::Not, arg } => {
            assert(t.kids =~= Tree::not(arg.tree()).kids);
            lemma_routes_follow(&**arg, g);
            lemma_count_flipped(arg.routes(), g);
        },
        ExprKind::And { left, right } => {
            assert(t.kids =~= Tree::and(left.tree(), right.tree()).kids);
            lemma_routes_follow(&**left, g);
            lemma_routes_follow(&**right, g);
            super::paths::lemma_routes_nonempty(&**right);
            lemma_graft_follows(
                left.routes(),
                Some(right.routes()),
                None,
                g,
                g(left.tree()),
                g(right.tree()),
                EvaluationOutcome::False,
            );
        },
        ExprKind::Or { left, right } => {
            assert(t.kids =~= Tree::or(left.tree(), right.tree()).kids);
            lemma_routes_follow(&**left, g);
            lemma_routes_follow(&**right, g);
            super::paths::lemma_routes_nonempty(&**right);
            lemma_graft_follows(
                left.routes(),
                None,
                Some(right.routes()),
                g,
                g(left.tree()),
                EvaluationOutcome::True,
                g(right.tree()),
            );
        },
        ExprKind::If { test_expr, then_expr, else_expr } => {
            assert(t.kids =~= Tree::ite(test_expr.tree(), then_expr.tree(), else_expr.tree()).kids);
            lemma_routes_follow(&**test_expr, g);
            lemma_routes_follow(&**then_expr, g);
            lemma_routes_follow(&**else_expr, g);
            super::paths::lemma_routes_nonempty(&**then_expr);
            super::paths::lemma_routes_nonempty(&**else_expr);
            lemma_graft_follows(
                test_expr.routes(),
                Some(then_expr.routes()),
                Some(else_expr.routes()),
                g,
                g(test_expr.tree()),
                g(then_expr.tree()),
                g(else_expr.tree()),
            );
        },
        _ => {
            let a = Route { lits: seq![Lit { atom: *e, negated: false }], leaf: Leaf::True };
            let b = Route { lits: seq![Lit { atom: *e, negated: true }], leaf: Leaf::False };
            assert(e.routes() =~= seq![a] + seq![b]);
            assert(a.lits.drop_last() =~= seq![]);
            assert(b.lits.drop_last() =~= seq![]);
            assert forall|c: Fate| true implies #[trigger] Route::count(e.routes(), g, c)
                == Route::count(seq![a], g, c) + Route::count(seq![b], g, c) by {
                lemma_count_append(seq![a], seq![b], g, c);
            }
            assert(Lit::all(a.lits.drop_last(), g) == EvaluationOutcome::True);
            assert(Lit::all(b.lits.drop_last(), g) == EvaluationOutcome::True);
            lemma_count_one(a, g, Fate::Reaches(true));
            lemma_count_one(a, g, Fate::Reaches(false));
            lemma_count_one(a, g, Fate::Errs);
            lemma_count_one(b, g, Fate::Reaches(true));
            lemma_count_one(b, g, Fate::Reaches(false));
            lemma_count_one(b, g, Fate::Errs);
        },
    }
}

impl<T> Conj<T> {
    /// The `k`th node of the cube.
    pub open spec fn spot(self, k: int) -> Spot {
        Spot {
            prefix: Seq::new(k as nat, |i: int| (self.lits[i].key(), self.lits[i].negated)),
            atom: self.lits[k].key(),
        }
    }

    /// The cube contains the node `s`.
    pub open spec fn visits(self, s: Spot) -> bool {
        exists|k: int| 0 <= k < self.lits.len() && s == #[trigger] self.spot(k)
    }

    /// The outcome of the cube.
    pub open spec fn outcome(self, g: spec_fn(Tree) -> EvaluationOutcome) -> EvaluationOutcome {
        match Lit::all(self.lits, g) {
            EvaluationOutcome::True => EvaluationOutcome::of_bool(!self.never_true),
            other => other,
        }
    }

    /// The outcome of the disjunction of `cubes`, evaluated left to right.
    pub open spec fn any(
        cubes: Seq<Conj<T>>,
        g: spec_fn(Tree) -> EvaluationOutcome,
    ) -> EvaluationOutcome
        decreases cubes.len(),
    {
        if cubes.len() == 0 {
            EvaluationOutcome::False
        } else {
            match Self::any(cubes.drop_last(), g) {
                EvaluationOutcome::False => cubes.last().outcome(g),
                other => other,
            }
        }
    }
}

/// A literal as an expression has the outcome of the literal.
proof fn lemma_lit_tree<T>(l: Lit<T>, g: spec_fn(Tree) -> EvaluationOutcome)
    requires
        respects_structure(g),
    ensures
        g(l.tree()) == l.outcome(g),
{
}

/// A chain of literals as an expression has the outcome of their conjunction.
proof fn lemma_chain_tree<T>(c: Conj<T>, n: nat, g: spec_fn(Tree) -> EvaluationOutcome)
    requires
        respects_structure(g),
        0 < n <= c.lits.len(),
    ensures
        g(c.chain(n)) == Lit::all(c.lits.take(n as int), g),
    decreases n,
{
    let lits = c.lits.take(n as int);
    lemma_lit_tree(c.lits[n - 1], g);
    assert(lits.last() == c.lits[n - 1]);
    if n == 1 {
        assert(lits.drop_last() =~= seq![]);
        assert(Lit::all(lits.drop_last(), g) == EvaluationOutcome::True);
    } else {
        lemma_chain_tree(c, (n - 1) as nat, g);
        assert(lits.drop_last() =~= c.lits.take(n - 1));
    }
}

/// A cube as an expression has the outcome of the cube.
pub proof fn lemma_cube_tree<T>(c: Conj<T>, g: spec_fn(Tree) -> EvaluationOutcome)
    requires
        respects_structure(g),
    ensures
        g(c.tree()) == c.outcome(g),
{
    let n = c.lits.len();
    assert(g(Tree::bool(false)) == EvaluationOutcome::False);
    assert(g(Tree::bool(true)) == EvaluationOutcome::True);
    if n > 0 {
        lemma_chain_tree(c, n, g);
        assert(c.lits.take(n as int) =~= c.lits);
    }
}

/// A DNF as an expression has the outcome of the disjunction of its cubes.
pub proof fn lemma_dnf_tree<T>(cubes: Seq<Conj<T>>, n: nat, g: spec_fn(Tree) -> EvaluationOutcome)
    requires
        respects_structure(g),
        n <= cubes.len(),
    ensures
        g(Dnf::chain(cubes, n)) == Conj::any(cubes.take(n as int), g),
    decreases n,
{
    let front = cubes.take(n as int);
    assert(g(Tree::bool(false)) == EvaluationOutcome::False);
    if n > 0 {
        lemma_cube_tree(cubes[n - 1], g);
        assert(front.last() == cubes[n - 1]);
        assert(front.drop_last() =~= cubes.take(n - 1));
        if n == 1 {
            assert(Conj::any(front.drop_last(), g) == EvaluationOutcome::False);
        } else {
            lemma_dnf_tree(cubes, (n - 1) as nat, g);
        }
    }
}

/// The atom of `s` is evaluated, and errors.
spec fn spot_errs(s: Spot, g: spec_fn(Tree) -> EvaluationOutcome) -> bool {
    &&& forall|i: int|
        0 <= i < s.prefix.len() ==> g((#[trigger] s.prefix[i]).0) == EvaluationOutcome::of_bool(
            !s.prefix[i].1,
        )
    &&& g(s.atom) == EvaluationOutcome::Error
}

/// A path errs where one of its nodes does.
proof fn lemma_spot_errs<T>(r: Route<T>, k: int, g: spec_fn(Tree) -> EvaluationOutcome)
    requires
        0 <= k < r.lits.len(),
        spot_errs(r.spot(k), g),
    ensures
        Lit::all(r.lits, g) == EvaluationOutcome::Error,
{
    lemma_spot_errs_upto(r, k, g, r.lits.len());
    assert(r.lits.take(r.lits.len() as int) =~= r.lits);
}

proof fn lemma_spot_errs_upto<T>(
    r: Route<T>,
    k: int,
    g: spec_fn(Tree) -> EvaluationOutcome,
    n: nat,
)
    requires
        0 <= k < r.lits.len(),
        n <= r.lits.len(),
        spot_errs(r.spot(k), g),
    ensures
        n <= k ==> Lit::all(r.lits.take(n as int), g) == EvaluationOutcome::True,
        n > k ==> Lit::all(r.lits.take(n as int), g) == EvaluationOutcome::Error,
    decreases n,
{
    if n > 0 {
        lemma_spot_errs_upto(r, k, g, (n - 1) as nat);
        assert(r.lits.take(n as int).drop_last() =~= r.lits.take(n - 1));
        assert(r.lits.take(n as int).last() == r.lits[n - 1]);
        if n - 1 < k {
            assert(r.spot(k).prefix[n - 1] == (r.lits[n - 1].key(), r.lits[n - 1].negated));
        }
    }
}

/// A path that errs does so at one of its nodes.
proof fn lemma_errs_spot<T>(r: Route<T>, g: spec_fn(Tree) -> EvaluationOutcome, n: nat) -> (k: int)
    requires
        n <= r.lits.len(),
        Lit::all(r.lits.take(n as int), g) == EvaluationOutcome::Error,
    ensures
        0 <= k < n,
        spot_errs(r.spot(k), g),
    decreases n,
{
    let front = r.lits.take(n as int);
    assert(front.drop_last() =~= r.lits.take(n - 1));
    if Lit::all(front.drop_last(), g) == EvaluationOutcome::Error {
        lemma_errs_spot(r, g, (n - 1) as nat)
    } else {
        let k = n - 1;
        assert(front.last() == r.lits[k]);
        assert forall|i: int| 0 <= i < k implies g((#[trigger] r.spot(k).prefix[i]).0)
            == EvaluationOutcome::of_bool(!r.spot(k).prefix[i].1) by {
            lemma_all_true(front.drop_last(), g, i);
            assert(front.drop_last()[i] == r.lits[i]);
        }
        k
    }
}

/// One of `cubes` has the outcome `o`.
pub open spec fn some_cube<T>(
    cubes: Seq<Conj<T>>,
    g: spec_fn(Tree) -> EvaluationOutcome,
    o: EvaluationOutcome,
) -> bool {
    exists|i: int| 0 <= i < cubes.len() && (#[trigger] cubes[i]).outcome(g) == o
}

/// The answers of `ce` about the atoms of `rs` hold: none that is said not to
/// error does.
pub open spec fn answers_hold<T>(
    rs: Seq<Route<T>>,
    ce: spec_fn(Expr<T>) -> bool,
    g: spec_fn(Tree) -> EvaluationOutcome,
) -> bool {
    forall|i: int, k: int|
        0 <= i < rs.len() && 0 <= k < rs[i].lits.len() && g((#[trigger] rs[i].lits[k]).key())
            == EvaluationOutcome::Error ==> ce(rs[i].lits[k].atom)
}

/// What pruning leaves ends in the paths it was told to leave alone, and is
/// made of the others before.
proof fn lemma_prune_from<T>(
    rs: Seq<Route<T>>,
    later: Seq<Route<T>>,
    ce: spec_fn(Expr<T>) -> bool,
)
    ensures
        ({
            let left = Route::prune(rs, later, ce);
            let n = left.len() - later.len();
            &&& 0 <= n <= rs.len()
            &&& forall|j: int| 0 <= j < later.len() ==> left[n + j] == #[trigger] later[j]
            &&& forall|i: int| 0 <= i < n ==> rs.contains(#[trigger] left[i])
        }),
    decreases rs.len(),
{
    if rs.len() > 0 {
        let r = rs.last();
        let front = rs.drop_last();
        let left = Route::prune(rs, later, ce);
        let n = left.len() - later.len();
        if r.needed(front + later, ce) {
            let more = seq![r] + later;
            lemma_prune_from(front, more, ce);
            assert(left[n - 1] == more[0]);
            assert forall|j: int| 0 <= j < later.len() implies left[n + j] == #[trigger]
                later[j] by {
                assert(more[j + 1] == later[j]);
            }
        } else {
            lemma_prune_from(front, later, ce);
        }
        assert forall|i: int| 0 <= i < n implies rs.contains(#[trigger] left[i]) by {
            if front.contains(left[i]) {
                let j = choose|j: int| 0 <= j < front.len() && front[j] == left[i];
                assert(rs[j] == left[i]);
            } else {
                assert(rs[rs.len() - 1] == r);
            }
        }
    }
}

/// Pruning keeps an error.
proof fn lemma_prune_errs<T>(
    rs: Seq<Route<T>>,
    later: Seq<Route<T>>,
    ce: spec_fn(Expr<T>) -> bool,
    g: spec_fn(Tree) -> EvaluationOutcome,
    m: int,
)
    requires
        answers_hold(rs, ce, g),
        0 <= m < rs.len() + later.len(),
        (rs + later)[m].fate(g) == Fate::Errs,
    ensures
        exists|i: int|
            0 <= i < Route::prune(rs, later, ce).len() && (#[trigger] Route::prune(
                rs,
                later,
                ce,
            )[i]).fate(g) == Fate::Errs,
    decreases rs.len(),
{
    if rs.len() == 0 {
        assert((rs + later)[m] == later[m]);
        assert(Route::prune(rs, later, ce)[m].fate(g) == Fate::Errs);
    } else {
        let r = rs.last();
        let front = rs.drop_last();
        let others = front + later;
        assert(answers_hold(front, ce, g)) by {
            assert forall|i: int, k: int|
                0 <= i < front.len() && 0 <= k < front[i].lits.len() && g(
                    (#[trigger] front[i].lits[k]).key(),
                ) == EvaluationOutcome::Error implies ce(front[i].lits[k].atom) by {
                assert(rs[i].lits[k] == front[i].lits[k]);
            }
        }
        if r.needed(others, ce) {
            let more = seq![r] + later;
            assert(front + more =~= rs + later);
            lemma_prune_errs(front, more, ce, g, m);
        } else if m != front.len() {
            let n = if m < front.len() {
                m
            } else {
                m - 1
            };
            assert(others[n] == (rs + later)[m]);
            lemma_prune_errs(front, later, ce, g, n);
        } else {
            assert(r.lits.take(r.lits.len() as int) =~= r.lits);
            let k = lemma_errs_spot(r, g, r.lits.len());
            assert(rs[rs.len() - 1].lits[k] == r.lits[k]);
            assert(ce(r.lits[k].atom));
            assert(!r.exposes(k, others, ce));
            let n = choose|n: int|
                0 <= n < others.len() && (#[trigger] others[n]).visits(r.spot(k));
            let at = choose|at: int|
                0 <= at < others[n].lits.len() && r.spot(k) == #[trigger] others[n].spot(at);
            lemma_spot_errs(others[n], at, g);
            lemma_prune_errs(front, later, ce, g, n);
        }
    }
}

/// Every path that can be true is kept.
proof fn lemma_prune_keeps<T>(
    rs: Seq<Route<T>>,
    later: Seq<Route<T>>,
    ce: spec_fn(Expr<T>) -> bool,
    j: int,
) -> (i: int)
    requires
        0 <= j < rs.len(),
        rs[j].leaf == Leaf::True,
    ensures
        0 <= i < Route::prune(rs, later, ce).len(),
        Route::prune(rs, later, ce)[i] == rs[j],
    decreases rs.len(),
{
    let r = rs.last();
    let front = rs.drop_last();
    if j < front.len() {
        assert(front[j] == rs[j]);
        if r.needed(front + later, ce) {
            lemma_prune_keeps(front, seq![r] + later, ce, j)
        } else {
            lemma_prune_keeps(front, later, ce, j)
        }
    } else {
        let more = seq![r] + later;
        lemma_prune_from(front, more, ce);
        let n = Route::prune(front, more, ce).len() - more.len();
        assert(Route::prune(front, more, ce)[n + 0] == more[0]);
        n
    }
}

/// A path that can never be true and that is kept visits a node whose atom may
/// error and that no other kept path visits.
proof fn lemma_prune_exposes<T>(
    rs: Seq<Route<T>>,
    later: Seq<Route<T>>,
    ce: spec_fn(Expr<T>) -> bool,
    i: int,
) -> (k: int)
    requires
        0 <= i < Route::prune(rs, later, ce).len() - later.len(),
        Route::prune(rs, later, ce)[i].leaf != Leaf::True,
    ensures
        ({
            let left = Route::prune(rs, later, ce);
            &&& 0 <= k < left[i].lits.len()
            &&& ce(left[i].lits[k].atom)
            &&& forall|j: int|
                0 <= j < left.len() && j != i ==> !(#[trigger] left[j]).visits(left[i].spot(k))
        }),
    decreases rs.len(),
{
    let r = rs.last();
    let front = rs.drop_last();
    let left = Route::prune(rs, later, ce);
    let others = front + later;
    let n = left.len() - later.len();
    if r.needed(others, ce) {
        let more = seq![r] + later;
        lemma_prune_from(front, more, ce);
        assert(left[n - 1] == more[0]);
        if i == n - 1 {
            let k = choose|k: int| #[trigger] r.exposes(k, others, ce);
            assert forall|j: int| 0 <= j < left.len() && j != i implies !(
            #[trigger] left[j]).visits(r.spot(k)) by {
                if j < i {
                    let m = choose|m: int| 0 <= m < front.len() && front[m] == left[j];
                    assert(others[m] == left[j]);
                } else {
                    assert(left[(n - 1) + (j - i)] == more[j - i]);
                    assert(others[front.len() + (j - i - 1)] == left[j]);
                }
            }
            k
        } else {
            lemma_prune_exposes(front, more, ce, i)
        }
    } else {
        lemma_prune_exposes(front, later, ce, i)
    }
}

/// Pruning brings in no path that is true.
proof fn lemma_prune_count<T>(
    rs: Seq<Route<T>>,
    later: Seq<Route<T>>,
    ce: spec_fn(Expr<T>) -> bool,
    g: spec_fn(Tree) -> EvaluationOutcome,
    f: Fate,
)
    ensures
        Route::count(Route::prune(rs, later, ce), g, f) <= Route::count(rs, g, f) + Route::count(
            later,
            g,
            f,
        ),
    decreases rs.len(),
{
    if rs.len() > 0 {
        let r = rs.last();
        let front = rs.drop_last();
        if r.needed(front + later, ce) {
            lemma_count_append(seq![r], later, g, f);
            lemma_count_one(r, g, f);
            lemma_prune_count(front, seq![r] + later, ce, g, f);
        } else {
            lemma_prune_count(front, later, ce, g, f);
        }
    }
}

/// Two paths with the same fate count as two.
proof fn lemma_count_two<T>(
    rs: Seq<Route<T>>,
    g: spec_fn(Tree) -> EvaluationOutcome,
    f: Fate,
    i: int,
    j: int,
)
    requires
        0 <= i < j < rs.len(),
        rs[i].fate(g) == f,
        rs[j].fate(g) == f,
    ensures
        Route::count(rs, g, f) >= 2,
    decreases rs.len(),
{
    let front = rs.drop_last();
    if j < front.len() {
        assert(front[i] == rs[i] && front[j] == rs[j]);
        lemma_count_two(front, g, f, i, j);
    } else {
        lemma_count_some(front, g, f);
        assert(front[i].fate(g) == f);
    }
}

/// A fate that is counted is the fate of one of the paths, and the other way
/// round.
proof fn lemma_count_some<T>(
    rs: Seq<Route<T>>,
    g: spec_fn(Tree) -> EvaluationOutcome,
    f: Fate,
)
    ensures
        (Route::count(rs, g, f) > 0) == exists|i: int|
            0 <= i < rs.len() && (#[trigger] rs[i]).fate(g) == f,
    decreases rs.len(),
{
    if rs.len() > 0 {
        lemma_count_some(rs.drop_last(), g, f);
        if Route::count(rs.drop_last(), g, f) > 0 {
            let i = choose|i: int|
                0 <= i < rs.drop_last().len() && (#[trigger] rs.drop_last()[i]).fate(g) == f;
            assert(rs[i].fate(g) == f);
        }
        if exists|i: int| 0 <= i < rs.len() && (#[trigger] rs[i]).fate(g) == f {
            let i = choose|i: int| 0 <= i < rs.len() && (#[trigger] rs[i]).fate(g) == f;
            if i < rs.len() - 1 {
                assert(rs.drop_last()[i].fate(g) == f);
            }
        }
    }
}

/// The outcome of a disjunction whose cubes are not both true and erring.
proof fn lemma_any<T>(cubes: Seq<Conj<T>>, g: spec_fn(Tree) -> EvaluationOutcome)
    requires
        !some_cube(cubes, g, EvaluationOutcome::True) || !some_cube(
            cubes,
            g,
            EvaluationOutcome::Error,
        ),
    ensures
        Conj::any(cubes, g) == if some_cube(cubes, g, EvaluationOutcome::True) {
            EvaluationOutcome::True
        } else if some_cube(cubes, g, EvaluationOutcome::Error) {
            EvaluationOutcome::Error
        } else {
            EvaluationOutcome::False
        },
    decreases cubes.len(),
{
    if cubes.len() > 0 {
        let front = cubes.drop_last();
        assert(cubes[cubes.len() - 1] == cubes.last());
        assert forall|o: EvaluationOutcome| #[trigger] some_cube(cubes, g, o) == (some_cube(
            front,
            g,
            o,
        ) || cubes.last().outcome(g) == o) by {
            if some_cube(front, g, o) {
                let i = choose|i: int| 0 <= i < front.len() && (#[trigger] front[i]).outcome(g) == o;
                assert(cubes[i].outcome(g) == o);
            }
            if some_cube(cubes, g, o) {
                let i = choose|i: int| 0 <= i < cubes.len() && (#[trigger] cubes[i]).outcome(g) == o;
                if i < front.len() {
                    assert(front[i].outcome(g) == o);
                }
            }
        }
        lemma_any(front, g);
    }
}

/// A cube of an expression is true exactly where the expression is.
pub proof fn lemma_cubes_true<T>(
    e: &Expr<T>,
    ce: spec_fn(Expr<T>) -> bool,
    g: spec_fn(Tree) -> EvaluationOutcome,
)
    requires
        respects_structure(g),
    ensures
        some_cube(Dnf::of_spec(e, ce), g, EvaluationOutcome::True) == (g(e.tree())
            == EvaluationOutcome::True),
        some_cube(Dnf::of_spec(e, ce), g, EvaluationOutcome::Error) ==> g(e.tree())
            == EvaluationOutcome::Error,
{
    let rs = e.routes();
    let left = Route::prune(rs, seq![], ce);
    let cubes = Dnf::of_spec(e, ce);
    let o = g(e.tree());
    lemma_routes_follow(e, g);
    lemma_count_some(rs, g, Fate::Reaches(true));
    lemma_count_some(rs, g, Fate::Errs);
    lemma_prune_from(rs, seq![], ce);
    if o == EvaluationOutcome::True {
        let j = choose|j: int| 0 <= j < rs.len() && (#[trigger] rs[j]).fate(g) == Fate::Reaches(
            true,
        );
        let i = lemma_prune_keeps(rs, seq![], ce, j);
        assert(cubes[i].outcome(g) == EvaluationOutcome::True);
    }
    if some_cube(cubes, g, EvaluationOutcome::True) {
        let i = choose|i: int|
            0 <= i < cubes.len() && (#[trigger] cubes[i]).outcome(g) == EvaluationOutcome::True;
        assert(rs.contains(left[i]));
        let j = choose|j: int| 0 <= j < rs.len() && rs[j] == left[i];
        assert(rs[j].fate(g) == Fate::Reaches(true));
    }
    if some_cube(cubes, g, EvaluationOutcome::Error) {
        let i = choose|i: int|
            0 <= i < cubes.len() && (#[trigger] cubes[i]).outcome(g) == EvaluationOutcome::Error;
        assert(rs.contains(left[i]));
        let j = choose|j: int| 0 <= j < rs.len() && rs[j] == left[i];
        assert(rs[j].fate(g) == Fate::Errs);
    }
}

/// A cube of an expression errs where the expression does, on any assignment
/// of outcomes on which none of its atoms that `ce` rules out errs.
proof fn lemma_cubes_errs<T>(
    e: &Expr<T>,
    ce: spec_fn(Expr<T>) -> bool,
    g: spec_fn(Tree) -> EvaluationOutcome,
)
    requires
        respects_structure(g),
        answers_hold(e.routes(), ce, g),
        g(e.tree()) == EvaluationOutcome::Error,
    ensures
        some_cube(Dnf::of_spec(e, ce), g, EvaluationOutcome::Error),
{
    let rs = e.routes();
    let left = Route::prune(rs, seq![], ce);
    let cubes = Dnf::of_spec(e, ce);
    lemma_routes_follow(e, g);
    lemma_count_some(rs, g, Fate::Errs);
    let j = choose|j: int| 0 <= j < rs.len() && (#[trigger] rs[j]).fate(g) == Fate::Errs;
    assert((rs + seq![])[j] == rs[j]);
    lemma_prune_errs(rs, seq![], ce, g, j);
    let i = choose|i: int| 0 <= i < left.len() && (#[trigger] left[i]).fate(g) == Fate::Errs;
    assert(cubes[i].outcome(g) == EvaluationOutcome::Error);
}

impl<T> Dnf<T> {
    /// The evaluation of `expr` follows exactly one path of its decision tree,
    /// on every assignment of outcomes to the atoms: the one path whose
    /// literals are all true and that ends in the boolean it evaluates to, if
    /// it does not err. It errs exactly where some path does, and then no path
    /// reaches its end.
    pub proof fn law_one_path_is_followed(
        expr: &Expr<T>,
        atoms: spec_fn(Tree) -> EvaluationOutcome,
    )
        ensures
            Route::follows(
                expr.routes(),
                |t: Tree| t.interp(atoms),
                expr.tree().interp(atoms),
            ),
    {
        lemma_interp_respects_structure(atoms);
        lemma_routes_follow(expr, |t: Tree| t.interp(atoms));
    }

    proof fn lemma_equivalent(
        expr: &Expr<T>,
        can_error: spec_fn(Expr<T>) -> bool,
        g: spec_fn(Tree) -> EvaluationOutcome,
    )
        requires
            respects_structure(g),
            answers_hold(expr.routes(), can_error, g),
        ensures
            ({
                let cubes = Self::of_spec(expr, can_error);
                g(Self::chain(cubes, cubes.len())) == g(expr.tree())
            }),
    {
        let cubes = Self::of_spec(expr, can_error);
        lemma_cubes_true(expr, can_error, g);
        if g(expr.tree()) == EvaluationOutcome::Error {
            lemma_cubes_errs(expr, can_error, g);
        }
        lemma_any(cubes, g);
        lemma_dnf_tree(cubes, cubes.len(), g);
        assert(cubes.take(cubes.len() as int) =~= cubes);
    }

    /// The DNF of `expr` is equivalent to `expr` wherever the answers of
    /// `can_error` about the atoms of `expr` are right: on every assignment of
    /// outcomes to the atoms under which none that is said not to error does.
    pub proof fn law_equivalent(
        expr: &Expr<T>,
        can_error: spec_fn(Expr<T>) -> bool,
        atoms: spec_fn(Tree) -> EvaluationOutcome,
    )
        requires
            answers_hold(expr.routes(), can_error, |t: Tree| t.interp(atoms)),
        ensures
            ({
                let cubes = Self::of_spec(expr, can_error);
                Self::chain(cubes, cubes.len()).interp(atoms) == expr.tree().interp(atoms)
            }),
    {
        let g = |t: Tree| t.interp(atoms);
        lemma_interp_respects_structure(atoms);
        Self::lemma_equivalent(expr, can_error, g);
    }

    /// Where every atom is taken to be able to error, the DNF of `expr` is
    /// equivalent to `expr` on every assignment of outcomes to the atoms.
    pub proof fn law_of_expr_equivalent(
        expr: &Expr<T>,
        atoms: spec_fn(Tree) -> EvaluationOutcome,
    )
        ensures
            ({
                let cubes = Self::of_spec(expr, |a: Expr<T>| true);
                Self::chain(cubes, cubes.len()).interp(atoms) == expr.tree().interp(atoms)
            }),
    {
        Self::law_equivalent(expr, |a: Expr<T>| true, atoms);
    }

    /// The order of the cubes does not matter, whatever the atoms do: the `||`
    /// of the cubes of `expr` in any other order, or repeated, has the outcome
    /// of the DNF.
    pub proof fn law_any_cube_order(
        expr: &Expr<T>,
        can_error: spec_fn(Expr<T>) -> bool,
        atoms: spec_fn(Tree) -> EvaluationOutcome,
        other: Seq<Conj<T>>,
    )
        requires
            forall|c: Conj<T>| #[trigger]
                other.contains(c) <==> Self::of_spec(expr, can_error).contains(c),
        ensures
            ({
                let cubes = Self::of_spec(expr, can_error);
                Self::chain(other, other.len()).interp(atoms) == Self::chain(
                    cubes,
                    cubes.len(),
                ).interp(atoms)
            }),
    {
        let g = |t: Tree| t.interp(atoms);
        let cubes = Self::of_spec(expr, can_error);
        lemma_interp_respects_structure(atoms);
        lemma_cubes_true(expr, can_error, g);
        assert forall|o: EvaluationOutcome| #[trigger]
            some_cube(other, g, o) == some_cube(cubes, g, o) by {
            if some_cube(other, g, o) {
                let i = choose|i: int| 0 <= i < other.len() && (#[trigger] other[i]).outcome(g) == o;
                assert(other.contains(other[i]));
                let j = choose|j: int| 0 <= j < cubes.len() && cubes[j] == other[i];
                assert(cubes[j].outcome(g) == o);
            }
            if some_cube(cubes, g, o) {
                let i = choose|i: int| 0 <= i < cubes.len() && (#[trigger] cubes[i]).outcome(g) == o;
                assert(cubes.contains(cubes[i]));
                assert(other.contains(cubes[i]));
                let j = choose|j: int| 0 <= j < other.len() && other[j] == cubes[i];
                assert(other[j].outcome(g) == o);
            }
        }
        lemma_any(other, g);
        lemma_any(cubes, g);
        lemma_dnf_tree(other, other.len(), g);
        lemma_dnf_tree(cubes, cubes.len(), g);
        assert(other.take(other.len() as int) =~= other);
        assert(cubes.take(cubes.len() as int) =~= cubes);
    }

    /// Which of the cubes that can never be true are there does not matter
    /// either, as long as every node that can error is: the `||` of the cubes
    /// of any paths of `expr` is equivalent to `expr`, in any order, if all
    /// that can be true are among them, and one through each node whose atom
    /// can error.
    pub proof fn law_any_covering_cubes(
        expr: &Expr<T>,
        can_error: spec_fn(Expr<T>) -> bool,
        atoms: spec_fn(Tree) -> EvaluationOutcome,
        picked: Seq<Route<T>>,
    )
        requires
            answers_hold(expr.routes(), can_error, |t: Tree| t.interp(atoms)),
            forall|i: int| 0 <= i < picked.len() ==> expr.routes().contains(#[trigger] picked[i]),
            forall|j: int|
                0 <= j < expr.routes().len() && (#[trigger] expr.routes()[j]).leaf == Leaf::True
                    ==> picked.contains(expr.routes()[j]),
            forall|j: int, k: int|
                0 <= j < expr.routes().len() && 0 <= k < expr.routes()[j].lits.len() && can_error(
                    expr.routes()[j].lits[k].atom,
                ) ==> exists|m: int|
                    0 <= m < picked.len() && #[trigger] picked[m].visits(
                        #[trigger] expr.routes()[j].spot(k),
                    ),
        ensures
            ({
                let cubes = picked.map_values(|r: Route<T>| r.cube());
                Self::chain(cubes, cubes.len()).interp(atoms) == expr.tree().interp(atoms)
            }),
    {
        let g = |t: Tree| t.interp(atoms);
        let o = g(expr.tree());
        let rs = expr.routes();
        let cubes = picked.map_values(|r: Route<T>| r.cube());
        lemma_interp_respects_structure(atoms);
        lemma_routes_follow(expr, g);
        lemma_count_some(rs, g, Fate::Reaches(true));
        lemma_count_some(rs, g, Fate::Errs);
        assert forall|i: int| 0 <= i < cubes.len() implies (#[trigger] cubes[i]).outcome(g)
            != EvaluationOutcome::True || o == EvaluationOutcome::True by {
            let j = choose|j: int| 0 <= j < rs.len() && rs[j] == picked[i];
            if cubes[i].outcome(g) == EvaluationOutcome::True {
                assert(rs[j].fate(g) == Fate::Reaches(true));
            }
        }
        assert forall|i: int| 0 <= i < cubes.len() implies (#[trigger] cubes[i]).outcome(g)
            != EvaluationOutcome::Error || o == EvaluationOutcome::Error by {
            let j = choose|j: int| 0 <= j < rs.len() && rs[j] == picked[i];
            if cubes[i].outcome(g) == EvaluationOutcome::Error {
                assert(rs[j].fate(g) == Fate::Errs);
            }
        }
        if o == EvaluationOutcome::True {
            let j = choose|j: int|
                0 <= j < rs.len() && (#[trigger] rs[j]).fate(g) == Fate::Reaches(true);
            let i = choose|i: int| 0 <= i < picked.len() && picked[i] == rs[j];
            assert(cubes[i].outcome(g) == EvaluationOutcome::True);
        }
        if o == EvaluationOutcome::Error {
            let j = choose|j: int| 0 <= j < rs.len() && (#[trigger] rs[j]).fate(g) == Fate::Errs;
            let r = rs[j];
            assert(r.lits.take(r.lits.len() as int) =~= r.lits);
            let k = lemma_errs_spot(r, g, r.lits.len());
            let a = r.lits[k].atom;
            assert(g(rs[j].lits[k].key()) == EvaluationOutcome::Error);
            assert(can_error(a));
            let m = choose|m: int| 0 <= m < picked.len() && #[trigger] picked[m].visits(r.spot(k));
            let n = choose|n: int|
                0 <= n < picked[m].lits.len() && r.spot(k) == #[trigger] picked[m].spot(n);
            lemma_spot_errs(picked[m], n, g);
            assert(cubes[m].outcome(g) == EvaluationOutcome::Error);
        }
        lemma_any(cubes, g);
        lemma_dnf_tree(cubes, cubes.len(), g);
        assert(cubes.take(cubes.len() as int) =~= cubes);
    }

    /// A cube that errs comes with no cube that is true.
    pub proof fn law_error_cubes_come_with_false_ones(
        expr: &Expr<T>,
        can_error: spec_fn(Expr<T>) -> bool,
        atoms: spec_fn(Tree) -> EvaluationOutcome,
        i: int,
        j: int,
    )
        requires
            0 <= i < Self::of_spec(expr, can_error).len(),
            0 <= j < Self::of_spec(expr, can_error).len(),
            Self::of_spec(expr, can_error)[i].outcome(|t: Tree| t.interp(atoms))
                == EvaluationOutcome::Error,
        ensures
            Self::of_spec(expr, can_error)[j].outcome(|t: Tree| t.interp(atoms))
                != EvaluationOutcome::True,
    {
        let g = |t: Tree| t.interp(atoms);
        let cubes = Self::of_spec(expr, can_error);
        lemma_interp_respects_structure(atoms);
        lemma_cubes_true(expr, can_error, g);
        assert(some_cube(cubes, g, EvaluationOutcome::Error)) by {
            assert(cubes[i].outcome(g) == EvaluationOutcome::Error);
        }
        if cubes[j].outcome(g) == EvaluationOutcome::True {
            assert(some_cube(cubes, g, EvaluationOutcome::True));
        }
    }

    /// On every input on which no atom of `expr` said not to error does, the
    /// DNF of `expr` evaluates like `expr`: both are true, both are false or both
    /// err.
    pub proof fn law_equivalent_on_input(
        expr: &Expr<T>,
        can_error: spec_fn(Expr<T>) -> bool,
        w: World,
    )
        requires
            answers_hold(expr.routes(), can_error, |t: Tree| t.outcome(w)),
        ensures
            ({
                let cubes = Self::of_spec(expr, can_error);
                Self::chain(cubes, cubes.len()).outcome(w) == expr.tree().outcome(w)
            }),
    {
        let g = |t: Tree| t.outcome(w);
        lemma_eval_respects_structure(w);
        Self::lemma_equivalent(expr, can_error, g);
    }
}

impl Tree {
    /// The root is `&&`, `||`, `!`, `if` or a boolean literal.
    pub open spec fn is_structure(self) -> bool {
        match self.op {
            Op::And | Op::Or | Op::If => true,
            Op::Unary(op) => op == UnaryOp::Not,
            Op::Lit(l) => l is Bool,
            _ => false,
        }
    }
}

impl<T> Lit<T> {
    /// No two of `lits` have the same atom, and no atom is boolean structure.
    pub open spec fn distinct_atoms(lits: Seq<Lit<T>>) -> bool {
        &&& forall|i: int, j: int|
            0 <= i < j < lits.len() ==> #[trigger] lits[i].key() != #[trigger] lits[j].key()
        &&& forall|i: int| 0 <= i < lits.len() ==> !(#[trigger] lits[i]).key().is_structure()
    }
}

proof fn lemma_find_none<T>(lits: Seq<Lit<T>>, key: Tree)
    requires
        Route::find(lits, key) is None,
    ensures
        forall|i: int| 0 <= i < lits.len() ==> #[trigger] lits[i].key() != key,
    decreases lits.len(),
{
    if lits.len() > 0 {
        lemma_find_none(lits.drop_first(), key);
        assert forall|i: int| 0 <= i < lits.len() implies #[trigger] lits[i].key() != key by {
            if i > 0 {
                assert(lits.drop_first()[i - 1] == lits[i]);
            }
        }
    }
}

proof fn lemma_extend_distinct<T>(lits: Seq<Lit<T>>, rest: Seq<Lit<T>>, leaf: Leaf)
    requires
        Lit::distinct_atoms(lits),
        forall|i: int| 0 <= i < rest.len() ==> !(#[trigger] rest[i]).key().is_structure(),
    ensures
        Lit::distinct_atoms(Route::extend(lits, rest, leaf).lits),
    decreases rest.len(),
{
    if rest.len() > 0 {
        match Route::find(lits, rest[0].key()) {
            None => {
                lemma_find_none(lits, rest[0].key());
                lemma_extend_distinct(lits.push(rest[0]), rest.drop_first(), leaf);
            },
            Some(negated) => {
                if negated == rest[0].negated {
                    lemma_extend_distinct(lits, rest.drop_first(), leaf);
                }
            },
        }
    }
}

spec fn all_distinct<T>(rs: Seq<Route<T>>) -> bool {
    forall|i: int| 0 <= i < rs.len() ==> Lit::distinct_atoms((#[trigger] rs[i]).lits)
}

proof fn lemma_graft_distinct<T>(
    rs: Seq<Route<T>>,
    t: Option<Seq<Route<T>>>,
    e: Option<Seq<Route<T>>>,
)
    requires
        all_distinct(rs),
        t is Some ==> all_distinct(t->0),
        e is Some ==> all_distinct(e->0),
    ensures
        all_distinct(Route::graft(rs, t, e)),
    decreases rs.len(),
{
    if rs.len() > 0 {
        let r = rs.last();
        assert(Lit::distinct_atoms(rs[rs.len() - 1].lits));
        lemma_graft_distinct(rs.drop_last(), t, e);
        let front = Route::graft(rs.drop_last(), t, e);
        let subs = match r.leaf {
            Leaf::True => t,
            Leaf::False => e,
            Leaf::Contradiction => None,
        };
        let tail = r.onward(subs);
        assert(Route::graft(rs, t, e) == front + tail);
        assert forall|i: int| 0 <= i < (front + tail).len() implies Lit::distinct_atoms(
            (#[trigger] (front + tail)[i]).lits,
        ) by {
            if i >= front.len() {
                let j = i - front.len();
                if let Some(s) = subs {
                    assert(tail[j] == Route::extend(r.lits, s[j].lits, s[j].leaf));
                    assert(Lit::distinct_atoms(s[j].lits));
                    lemma_extend_distinct(r.lits, s[j].lits, s[j].leaf);
                }
            } else {
                assert((front + tail)[i] == front[i]);
            }
        }
    }
}

proof fn lemma_routes_distinct<T>(e: &Expr<T>)
    ensures
        all_distinct(e.routes()),
    decreases e,
{
    match &e.kind {
        ExprKind::UnaryApp { op: UnaryOp::Not, arg } => {
            lemma_routes_distinct(&**arg);
            assert forall|i: int| 0 <= i < e.routes().len() implies Lit::distinct_atoms(
                (#[trigger] e.routes()[i]).lits,
            ) by {
                assert(e.routes()[i].lits == arg.routes()[i].lits);
            }
        },
        ExprKind::And { left, right } => {
            lemma_routes_distinct(&**left);
            lemma_routes_distinct(&**right);
            lemma_graft_distinct(left.routes(), Some(right.routes()), None);
        },
        ExprKind::Or { left, right } => {
            lemma_routes_distinct(&**left);
            lemma_routes_distinct(&**right);
            lemma_graft_distinct(left.routes(), None, Some(right.routes()));
        },
        ExprKind::If { test_expr, then_expr, else_expr } => {
            lemma_routes_distinct(&**test_expr);
            lemma_routes_distinct(&**then_expr);
            lemma_routes_distinct(&**else_expr);
            lemma_graft_distinct(
                test_expr.routes(),
                Some(then_expr.routes()),
                Some(else_expr.routes()),
            );
        },
        _ => {},
    }
}

impl<T> Dnf<T> {
    pub proof fn lemma_at_most_one_true(
        expr: &Expr<T>,
        can_error: spec_fn(Expr<T>) -> bool,
        g: spec_fn(Tree) -> EvaluationOutcome,
        i: int,
        j: int,
    )
        requires
            respects_structure(g),
            0 <= i < Self::of_spec(expr, can_error).len(),
            0 <= j < Self::of_spec(expr, can_error).len(),
            g(Self::of_spec(expr, can_error)[i].tree()) == EvaluationOutcome::True,
            g(Self::of_spec(expr, can_error)[j].tree()) == EvaluationOutcome::True,
        ensures
            i == j,
    {
        let cubes = Self::of_spec(expr, can_error);
        lemma_cube_tree(cubes[i], g);
        lemma_cube_tree(cubes[j], g);
        lemma_routes_follow(expr, g);
        let left = Route::prune(expr.routes(), seq![], can_error);
        let f = Fate::Reaches(true);
        lemma_prune_count(expr.routes(), seq![], can_error, g, f);
        assert(left[i].fate(g) == f && left[j].fate(g) == f);
        if i < j {
            lemma_count_two(left, g, f, i, j);
        } else if j < i {
            lemma_count_two(left, g, f, j, i);
        }
    }

    /// At most one cube of a DNF is true, on any assignment of outcomes to
    /// the atoms.
    pub proof fn law_at_most_one_true(
        expr: &Expr<T>,
        can_error: spec_fn(Expr<T>) -> bool,
        atoms: spec_fn(Tree) -> EvaluationOutcome,
        i: int,
        j: int,
    )
        requires
            0 <= i < Self::of_spec(expr, can_error).len(),
            0 <= j < Self::of_spec(expr, can_error).len(),
            Self::of_spec(expr, can_error)[i].tree().interp(atoms) == EvaluationOutcome::True,
            Self::of_spec(expr, can_error)[j].tree().interp(atoms) == EvaluationOutcome::True,
        ensures
            i == j,
    {
        lemma_interp_respects_structure(atoms);
        Self::lemma_at_most_one_true(expr, can_error, |t: Tree| t.interp(atoms), i, j);
    }

    /// No cube that can never be true is there in vain: one of its atoms may
    /// error at a node that no other cube visits.
    pub proof fn law_never_true_cubes_are_for_errors(
        expr: &Expr<T>,
        can_error: spec_fn(Expr<T>) -> bool,
        i: int,
    ) -> (k: int)
        requires
            0 <= i < Self::of_spec(expr, can_error).len(),
            Self::of_spec(expr, can_error)[i].never_true,
        ensures
            ({
                let cubes = Self::of_spec(expr, can_error);
                &&& 0 <= k < cubes[i].lits.len()
                &&& can_error(cubes[i].lits[k].atom)
                &&& forall|j: int|
                    0 <= j < cubes.len() && j != i ==> !(#[trigger] cubes[j]).visits(
                        cubes[i].spot(k),
                    )
            }),
    {
        let cubes = Self::of_spec(expr, can_error);
        let left = Route::prune(expr.routes(), seq![], can_error);
        let k = lemma_prune_exposes(expr.routes(), seq![], can_error, i);
        assert(cubes[i].spot(k) =~= left[i].spot(k));
        assert forall|j: int| 0 <= j < cubes.len() && j != i implies !(
        #[trigger] cubes[j]).visits(cubes[i].spot(k)) by {
            assert(!left[j].visits(left[i].spot(k)));
            if cubes[j].visits(cubes[i].spot(k)) {
                let m = choose|m: int|
                    0 <= m < cubes[j].lits.len() && cubes[i].spot(k) == #[trigger] cubes[j].spot(m);
                assert(cubes[j].spot(m) =~= left[j].spot(m));
            }
        }
        k
    }

    /// A cube that is not marked as never true is true under some outcomes of
    /// its atoms.
    pub proof fn law_other_cubes_can_be_true(
        expr: &Expr<T>,
        can_error: spec_fn(Expr<T>) -> bool,
        i: int,
    ) -> (atoms: spec_fn(Tree) -> EvaluationOutcome)
        requires
            0 <= i < Self::of_spec(expr, can_error).len(),
            !Self::of_spec(expr, can_error)[i].never_true,
        ensures
            Self::of_spec(expr, can_error)[i].tree().decided(atoms) == EvaluationOutcome::True,
            expr.tree().decided(atoms) == EvaluationOutcome::True,
    {
        let cubes = Self::of_spec(expr, can_error);
        let lits = cubes[i].lits;
        let atoms = |t: Tree|
            EvaluationOutcome::of_bool(
                exists|k: int| 0 <= k < lits.len() && (#[trigger] lits[k]).key() == t
                    && !lits[k].negated,
            );
        let g = |t: Tree| t.decided(atoms);
        Self::law_cube_atoms(expr, can_error, i);
        lemma_decided_respects_structure(atoms);
        assert forall|k: int| 0 <= k < lits.len() implies (#[trigger] lits[k]).outcome(g)
            == EvaluationOutcome::True by {
            let t = lits[k].key();
            assert(!t.is_structure());
            assert(g(t) == atoms(t));
            if lits[k].negated {
                assert forall|m: int| 0 <= m < lits.len() && (#[trigger] lits[m]).key()
                    == t implies lits[m].negated by {
                    if m < k {
                        assert(lits[m].key() != lits[k].key());
                    } else if k < m {
                        assert(lits[k].key() != lits[m].key());
                    }
                }
            }
        }
        lemma_all_of(lits, g);
        lemma_cube_tree(cubes[i], g);
        assert(some_cube(cubes, g, EvaluationOutcome::True)) by {
            assert(cubes[i].outcome(g) == EvaluationOutcome::True);
        }
        lemma_cubes_true(expr, can_error, g);
        atoms
    }

    /// The atoms of a path are pairwise different, and none of them is `&&`,
    /// `||`, `!`, `if` or a boolean literal.
    pub proof fn law_path_atoms(expr: &Expr<T>, i: int)
        requires
            0 <= i < expr.routes().len(),
        ensures
            Lit::distinct_atoms(expr.routes()[i].lits),
    {
        lemma_routes_distinct(expr);
    }

    /// The atoms of a cube are pairwise different, and none of them is `&&`,
    /// `||`, `!`, `if` or a boolean literal.
    pub proof fn law_cube_atoms(expr: &Expr<T>, can_error: spec_fn(Expr<T>) -> bool, i: int)
        requires
            0 <= i < Self::of_spec(expr, can_error).len(),
        ensures
            Lit::distinct_atoms(Self::of_spec(expr, can_error)[i].lits),
    {
        let left = Route::prune(expr.routes(), seq![], can_error);
        lemma_routes_distinct(expr);
        lemma_prune_from(expr.routes(), seq![], can_error);
        assert(expr.routes().contains(left[i]));
        let j = choose|j: int| 0 <= j < expr.routes().len() && expr.routes()[j] == left[i];
        assert(Lit::distinct_atoms(expr.routes()[j].lits));
    }
}

} // verus!
