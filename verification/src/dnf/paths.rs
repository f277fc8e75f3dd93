//! The paths of the evaluation decision tree, and the pruning of the
//! never-true ones. See the module documentation of [`super`].

use std::sync::Arc;

use vstd::prelude::*;

use crate::ast::{Data, Expr, ExprKind, Prim, UnaryOp};
use crate::expr_util::erase;
use crate::tree::Tree;

use super::{Conj, Cube, DnfError, Lit, Literal};

verus! {

/// Where a path ends.
#[derive(Clone, Copy, Debug, PartialEq, Eq, Structural)]
pub enum Leaf {
    True,
    False,
    /// The path reached a literal contradicting an earlier one; whatever the
    /// tree does after that point is unreachable.
    Contradiction,
}

/// A root-to-leaf path of the decision tree: the literals in evaluation
/// order, with repeated atoms removed.
pub struct Path<T> {
    pub literals: Vec<Literal<T>>,
    pub leaf: Leaf,
}

/// What a [`Path`] is.
#[verifier::ext_equal]
pub struct Route<T> {
    pub lits: Seq<Lit<T>>,
    pub leaf: Leaf,
}

impl Leaf {
    /// The leaf under a `!`.
    pub open spec fn flip(self) -> Leaf {
        match self {
            Leaf::True => Leaf::False,
            Leaf::False => Leaf::True,
            Leaf::Contradiction => Leaf::Contradiction,
        }
    }
}

impl<T> Route<T> {
    /// The polarity with which `lits` determine the atom `key`, if they do.
    pub open spec fn find(lits: Seq<Lit<T>>, key: Tree) -> Option<bool>
        decreases lits.len(),
    {
        if lits.len() == 0 {
            None
        } else if lits[0].key() == key {
            Some(lits[0].negated)
        } else {
            Self::find(lits.drop_first(), key)
        }
    }

    /// The path through `lits` continued by `rest` to `leaf`, dropping
    /// literals whose atom is already determined and stopping at the first
    /// contradiction.
    pub open spec fn extend(lits: Seq<Lit<T>>, rest: Seq<Lit<T>>, leaf: Leaf) -> Route<T>
        decreases rest.len(),
    {
        if rest.len() == 0 {
            Route { lits, leaf }
        } else {
            match Self::find(lits, rest[0].key()) {
                None => Self::extend(lits.push(rest[0]), rest.drop_first(), leaf),
                Some(negated) => if negated == rest[0].negated {
                    Self::extend(lits, rest.drop_first(), leaf)
                } else {
                    Route { lits, leaf: Leaf::Contradiction }
                },
            }
        }
    }

    /// The continuations of the path by each of `subs`; the path alone if
    /// there is nothing to continue with.
    pub open spec fn onward(self, subs: Option<Seq<Route<T>>>) -> Seq<Route<T>> {
        match subs {
            Some(subs) => subs.map_values(|s: Route<T>| Self::extend(self.lits, s.lits, s.leaf)),
            None => seq![self],
        }
    }

    /// Every `true` leaf of `routes` continued by `on_true`, every `false`
    /// leaf by `on_false`.
    pub open spec fn graft(
        routes: Seq<Route<T>>,
        on_true: Option<Seq<Route<T>>>,
        on_false: Option<Seq<Route<T>>>,
    ) -> Seq<Route<T>>
        decreases routes.len(),
    {
        if routes.len() == 0 {
            seq![]
        } else {
            let r = routes.last();
            Self::graft(routes.drop_last(), on_true, on_false) + match r.leaf {
                Leaf::True => r.onward(on_true),
                Leaf::False => r.onward(on_false),
                Leaf::Contradiction => seq![r],
            }
        }
    }

    /// One of `routes` ends in `leaf`.
    pub open spec fn some_leaf(routes: Seq<Route<T>>, leaf: Leaf) -> bool {
        exists|i: int| 0 <= i < routes.len() && (#[trigger] routes[i]).leaf == leaf
    }
}

impl<T> Expr<T> {
    /// The paths of the decision tree in depth-first order, `true` edge
    /// first.
    pub open spec fn routes(&self) -> Seq<Route<T>>
        decreases self,
    {
        match self.kind {
            ExprKind::Lit(Prim::Bool(b)) => seq![
                Route { lits: seq![], leaf: if b { Leaf::True } else { Leaf::False } },
            ],
            ExprKind::UnaryApp { op: UnaryOp::Not, arg } => arg.routes().map_values(
                |r: Route<T>| Route { lits: r.lits, leaf: r.leaf.flip() },
            ),
            ExprKind::And { left, right } => Route::graft(
                left.routes(),
                Some(right.routes()),
                None,
            ),
            ExprKind::Or { left, right } => Route::graft(
                left.routes(),
                None,
                Some(right.routes()),
            ),
            ExprKind::If { test_expr, then_expr, else_expr } => Route::graft(
                test_expr.routes(),
                Some(then_expr.routes()),
                Some(else_expr.routes()),
            ),
            _ => seq![
                Route { lits: seq![Lit { atom: *self, negated: false }], leaf: Leaf::True },
                Route { lits: seq![Lit { atom: *self, negated: true }], leaf: Leaf::False },
            ],
        }
    }
}

/// What the paths of `ps` are.
pub open spec fn routes_of<T>(ps: Seq<Path<T>>) -> Seq<Route<T>> {
    ps.map_values(|p: Path<T>| p.view())
}

/// What the optional paths are.
pub open spec fn opt_routes<T>(ps: &Option<Vec<Path<T>>>) -> Option<Seq<Route<T>>> {
    match ps {
        Some(ps) => Some(routes_of(ps@)),
        None => None,
    }
}

/// Every path of `ps` is well formed.
pub open spec fn all_wf<T>(ps: Seq<Path<T>>) -> bool {
    forall|i: int| 0 <= i < ps.len() ==> (#[trigger] ps[i]).wf()
}

impl<T> Path<T> {
    /// What the path is.
    pub open spec fn view(self) -> Route<T> {
        Route { lits: self.literals@.map_values(|l: Literal<T>| l@), leaf: self.leaf }
    }

    /// Every literal is well formed.
    pub open spec fn wf(self) -> bool {
        forall|i: int| 0 <= i < self.literals@.len() ==> (#[trigger] self.literals@[i]).wf()
    }

    fn leaf(leaf: bool) -> (r: Self)
        ensures
            r.wf(),
            r@ == (Route::<T> { lits: seq![], leaf: if leaf { Leaf::True } else { Leaf::False } }),
    {
        let literals: Vec<Literal<T>> = Vec::new();
        let r = Path { literals, leaf: if leaf { Leaf::True } else { Leaf::False } };
        assert(r@.lits =~= seq![]);
        r
    }

    fn flipped(self) -> (r: Self)
        ensures
            r.literals == self.literals,
            r.leaf == self.leaf.flip(),
    {
        let leaf = match self.leaf {
            Leaf::True => Leaf::False,
            Leaf::False => Leaf::True,
            Leaf::Contradiction => Leaf::Contradiction,
        };
        Path { literals: self.literals, leaf }
    }

    fn dup(&self) -> (r: Self)
        ensures
            r@ == self@,
            self.wf() ==> r.wf(),
    {
        let literals = dup_literals(&self.literals);
        Path { literals, leaf: self.leaf }
    }

    /// `self` continued by `rest`, dropping literals of `rest` whose atom
    /// `self` already determined and stopping at the first contradiction.
    fn extended(&self, rest: &Path<T>) -> (r: Self)
        requires
            self.wf(),
            rest.wf(),
        ensures
            r.wf(),
            r@ == Route::extend(self@.lits, rest@.lits, rest@.leaf),
    {
        let mut literals = dup_literals(&self.literals);
        let mut i: usize = 0;
        assert(rest@.lits.skip(0) =~= rest@.lits);
        while i < rest.literals.len()
            invariant
                i <= rest.literals@.len(),
                rest.wf(),
                forall|j: int| 0 <= j < literals@.len() ==> (#[trigger] literals@[j]).wf(),
                Route::extend(self@.lits, rest@.lits, rest@.leaf) == Route::extend(
                    literals@.map_values(|l: Literal<T>| l@),
                    rest@.lits.skip(i as int),
                    rest@.leaf,
                ),
            decreases rest.literals@.len() - i,
        {
            let lit = &rest.literals[i];
            let ghost before = literals@.map_values(|l: Literal<T>| l@);
            assert(rest@.lits.skip(i as int)[0] == lit@);
            assert(rest@.lits.skip(i as int).drop_first() =~= rest@.lits.skip(i + 1));
            match find(&literals, lit) {
                None => {
                    literals.push(lit.dup());
                    assert(literals@.map_values(|l: Literal<T>| l@) =~= before.push(lit@));
                },
                Some(negated) => {
                    if negated != lit.negated {
                        return Path { literals, leaf: Leaf::Contradiction };
                    }
                },
            }
            i += 1;
        }
        Path { literals, leaf: rest.leaf }
    }
}

fn dup_literals<T>(literals: &Vec<Literal<T>>) -> (r: Vec<Literal<T>>)
    ensures
        r@ == literals@,
{
    let mut out: Vec<Literal<T>> = Vec::new();
    let mut i: usize = 0;
    while i < literals.len()
        invariant
            i <= literals@.len(),
            out@ =~= literals@.take(i as int),
        decreases literals@.len() - i,
    {
        out.push(literals[i].dup());
        i += 1;
    }
    out
}

/// The polarity with which `literals` determine the atom of `lit`, if they
/// do.
fn find<T>(literals: &Vec<Literal<T>>, lit: &Literal<T>) -> (r: Option<bool>)
    requires
        lit.wf(),
        forall|j: int| 0 <= j < literals@.len() ==> (#[trigger] literals@[j]).wf(),
    ensures
        r == Route::find(literals@.map_values(|l: Literal<T>| l@), lit@.key()),
{
    let ghost all = literals@.map_values(|l: Literal<T>| l@);
    let mut i: usize = 0;
    assert(all.skip(0) =~= all);
    while i < literals.len()
        invariant
            i <= literals@.len(),
            lit.wf(),
            forall|j: int| 0 <= j < literals@.len() ==> (#[trigger] literals@[j]).wf(),
            all == literals@.map_values(|l: Literal<T>| l@),
            Route::find(all, lit@.key()) == Route::find(all.skip(i as int), lit@.key()),
        decreases literals@.len() - i,
    {
        assert(all.skip(i as int)[0] == literals@[i as int]@);
        assert(all.skip(i as int).drop_first() =~= all.skip(i + 1));
        if literals[i].key == lit.key {
            return Some(literals[i].negated);
        }
        i += 1;
    }
    None
}

/// Whether one of `paths` ends in `leaf`.
fn some_leaf<T>(paths: &Vec<Path<T>>, leaf: Leaf) -> (r: bool)
    ensures
        r == Route::some_leaf(routes_of(paths@), leaf),
{
    let mut i: usize = 0;
    while i < paths.len()
        invariant
            i <= paths@.len(),
            forall|j: int| 0 <= j < i ==> (#[trigger] routes_of(paths@)[j]).leaf != leaf,
        decreases paths@.len() - i,
    {
        if paths[i].leaf == leaf {
            assert(routes_of(paths@)[i as int].leaf == leaf);
            return true;
        }
        i += 1;
    }
    false
}

/// Appends the continuations of `p` by each of `subs` to `out`.
fn push_onward<T>(p: &Path<T>, subs: &Option<Vec<Path<T>>>, out: &mut Vec<Path<T>>)
    requires
        p.wf(),
        subs is Some ==> all_wf(subs->0@),
        all_wf(old(out)@),
    ensures
        all_wf(final(out)@),
        routes_of(final(out)@) == routes_of(old(out)@) + p@.onward(
            opt_routes(subs),
        ),
{
    match subs {
        Some(subs) => {
            let ghost before = routes_of(out@);
            let ghost all = p@.onward(Some(routes_of(subs@)));
            let mut i: usize = 0;
            while i < subs.len()
                invariant
                    i <= subs@.len(),
                    p.wf(),
                    all_wf(subs@),
                    all_wf(out@),
                    all == p@.onward(Some(routes_of(subs@))),
                    routes_of(out@) =~= before + all.take(i as int),
                decreases subs@.len() - i,
            {
                let r = p.extended(&subs[i]);
                let ghost sofar = routes_of(out@);
                assert(routes_of(subs@)[i as int] == subs@[i as int]@);
                assert(all[i as int] == r@);
                out.push(r);
                assert(routes_of(out@) =~= sofar.push(r@));
                assert(all.take(i + 1) =~= all.take(i as int).push(r@));
                i += 1;
            }
            assert(all.take(i as int) =~= all);
        },
        None => {
            let ghost before = routes_of(out@);
            out.push(p.dup());
            assert(routes_of(out@) =~= before + seq![p@]);
        },
    }
}

/// Continues every `true` leaf of `paths` by `on_true` and every `false` leaf
/// by `on_false`. Both branches of an `if` are grafted in one pass: grafting
/// one after the other would also extend the leaves the first one brought in.
fn graft<T>(
    paths: &Vec<Path<T>>,
    on_true: &Option<Vec<Path<T>>>,
    on_false: &Option<Vec<Path<T>>>,
) -> (r: Vec<Path<T>>)
    requires
        all_wf(paths@),
        on_true is Some ==> all_wf(on_true->0@),
        on_false is Some ==> all_wf(on_false->0@),
    ensures
        all_wf(r@),
        routes_of(r@) == Route::graft(
            routes_of(paths@),
            opt_routes(on_true),
            opt_routes(on_false),
        ),
{
    let ghost t = opt_routes(on_true);
    let ghost f = opt_routes(on_false);
    let ghost rs = routes_of(paths@);
    let none: Option<Vec<Path<T>>> = None;
    let mut out: Vec<Path<T>> = Vec::new();
    let mut i: usize = 0;
    while i < paths.len()
        invariant
            i <= paths@.len(),
            none is None,
            all_wf(paths@),
            all_wf(out@),
            on_true is Some ==> all_wf(on_true->0@),
            on_false is Some ==> all_wf(on_false->0@),
            t == opt_routes(on_true),
            f == opt_routes(on_false),
            rs == routes_of(paths@),
            routes_of(out@) =~= Route::graft(rs.take(i as int), t, f),
        decreases paths@.len() - i,
    {
        let p = &paths[i];
        assert(rs.take(i + 1).drop_last() =~= rs.take(i as int));
        assert(rs.take(i + 1).last() == p@);
        match p.leaf {
            Leaf::True => push_onward(p, on_true, &mut out),
            Leaf::False => push_onward(p, on_false, &mut out),
            Leaf::Contradiction => push_onward(p, &none, &mut out),
        }
        i += 1;
    }
    assert(rs.take(i as int) =~= rs);
    out
}

/// A branch that no leaf leads to makes no difference.
proof fn lemma_graft_unused<T>(
    rs: Seq<Route<T>>,
    t: Option<Seq<Route<T>>>,
    t2: Option<Seq<Route<T>>>,
    f: Option<Seq<Route<T>>>,
    f2: Option<Seq<Route<T>>>,
)
    requires
        Route::some_leaf(rs, Leaf::True) ==> t == t2,
        Route::some_leaf(rs, Leaf::False) ==> f == f2,
    ensures
        Route::graft(rs, t, f) == Route::graft(rs, t2, f2),
    decreases rs.len(),
{
    if rs.len() > 0 {
        let front = rs.drop_last();
        assert(rs[rs.len() - 1] == rs.last());
        assert forall|leaf: Leaf| Route::some_leaf(front, leaf) implies Route::some_leaf(
            rs,
            leaf,
        ) by {
            let i = choose|i: int| 0 <= i < front.len() && (#[trigger] front[i]).leaf == leaf;
            assert(rs[i].leaf == leaf);
        }
        lemma_graft_unused(front, t, t2, f, f2);
    }
}

/// There is always a path.
pub(super) proof fn lemma_routes_nonempty<T>(e: &Expr<T>)
    ensures
        e.routes().len() > 0,
    decreases e,
{
    match &e.kind {
        ExprKind::UnaryApp { op: UnaryOp::Not, arg } => {
            lemma_routes_nonempty(&**arg);
        },
        ExprKind::And { left, right } => {
            lemma_routes_nonempty(&**left);
            lemma_routes_nonempty(&**right);
            lemma_graft_len(left.routes(), Some(right.routes()), None);
        },
        ExprKind::Or { left, right } => {
            lemma_routes_nonempty(&**left);
            lemma_routes_nonempty(&**right);
            lemma_graft_len(left.routes(), None, Some(right.routes()));
        },
        ExprKind::If { test_expr, then_expr, else_expr } => {
            lemma_routes_nonempty(&**test_expr);
            lemma_routes_nonempty(&**then_expr);
            lemma_routes_nonempty(&**else_expr);
            lemma_graft_len(
                test_expr.routes(),
                Some(then_expr.routes()),
                Some(else_expr.routes()),
            );
        },
        _ => {},
    }
}

/// Grafting loses no path, and brings in every path of a branch that a leaf
/// leads to.
proof fn lemma_graft_len<T>(
    rs: Seq<Route<T>>,
    t: Option<Seq<Route<T>>>,
    e: Option<Seq<Route<T>>>,
)
    requires
        t is Some ==> t->0.len() > 0,
        e is Some ==> e->0.len() > 0,
    ensures
        Route::graft(rs, t, e).len() >= rs.len(),
        t is Some && Route::some_leaf(rs, Leaf::True) ==> Route::graft(rs, t, e).len()
            >= t->0.len(),
        e is Some && Route::some_leaf(rs, Leaf::False) ==> Route::graft(rs, t, e).len()
            >= e->0.len(),
    decreases rs.len(),
{
    if rs.len() > 0 {
        let front = rs.drop_last();
        lemma_graft_len(front, t, e);
        assert forall|leaf: Leaf| Route::some_leaf(rs, leaf) implies Route::some_leaf(front, leaf)
            || rs.last().leaf == leaf by {
            let i = choose|i: int| 0 <= i < rs.len() && (#[trigger] rs[i]).leaf == leaf;
            if i < front.len() {
                assert(front[i].leaf == leaf);
            }
        }
    }
}

/// `paths`, unless there are more than `max_cubes` of them.
fn within<T>(paths: Vec<Path<T>>, max_cubes: usize) -> (r: Result<Vec<Path<T>>, DnfError>)
    ensures
        match r {
            Ok(ps) => ps == paths && paths@.len() <= max_cubes,
            Err(e) => paths@.len() > max_cubes && e == (DnfError::TooLarge {
                limit: max_cubes,
                what: "cubes",
            }),
        },
{
    if paths.len() > max_cubes {
        Err(DnfError::TooLarge { limit: max_cubes, what: "cubes" })
    } else {
        Ok(paths)
    }
}

/// The paths of `expr`'s decision tree in depth-first order, `true` edge
/// first; fails when there would be more than `max_cubes` of them.
pub(crate) fn paths<T: Data>(expr: &Expr<T>, max_cubes: usize) -> (r: Result<
    Vec<Path<T>>,
    DnfError,
>)
    ensures
        match r {
            Ok(ps) => {
                &&& expr.routes().len() <= max_cubes
                &&& all_wf(ps@)
                &&& routes_of(ps@) == expr.routes()
            },
            Err(e) => {
                &&& expr.routes().len() > max_cubes
                &&& e == (DnfError::TooLarge { limit: max_cubes, what: "cubes" })
            },
        },
    decreases expr,
{
    match &expr.kind {
        ExprKind::Lit(Prim::Bool(b)) => {
            let mut out: Vec<Path<T>> = Vec::new();
            out.push(Path::leaf(*b));
            assert(routes_of(out@) =~= expr.routes());
            within(out, max_cubes)
        },
        ExprKind::UnaryApp { op: UnaryOp::Not, arg } => {
            let ps = paths(&**arg, max_cubes)?;
            let ghost inner = ps@;
            let mut rest = ps;
            let mut out: Vec<Path<T>> = Vec::new();
            let n = rest.len();
            let mut i: usize = 0;
            while i < n
                invariant
                    i <= n,
                    n == inner.len(),
                    all_wf(inner),
                    rest@ == inner.skip(i as int),
                    out@.len() == i,
                    forall|j: int|
                        0 <= j < i ==> (#[trigger] out@[j]).literals == inner[j].literals
                            && out@[j].leaf == inner[j].leaf.flip(),
                decreases n - i,
            {
                let p = rest.remove(0);
                assert(p == inner[i as int]);
                out.push(p.flipped());
                i += 1;
                assert(rest@ =~= inner.skip(i as int));
            }
            assert(routes_of(out@) =~= expr.routes()) by {
                assert forall|j: int| 0 <= j < n implies routes_of(out@)[j] == #[trigger]
                    expr.routes()[j] by {
                    assert(routes_of(inner)[j] == inner[j]@);
                    assert(out@[j]@ == (Route { lits: inner[j]@.lits, leaf: inner[j]@.leaf.flip() }));
                }
            }
            assert forall|j: int| 0 <= j < out@.len() implies (#[trigger] out@[j]).wf() by {
                assert(inner[j].wf());
            }
            Ok(out)
        },
        ExprKind::And { left, right } => {
            proof {
                lemma_routes_nonempty(&**right);
                lemma_graft_len(left.routes(), Some(right.routes()), None);
            }
            let l = paths(&**left, max_cubes)?;
            let on_true = if some_leaf(&l, Leaf::True) {
                Some(paths(&**right, max_cubes)?)
            } else {
                None
            };
            let out = graft(&l, &on_true, &None);
            proof {
                let t = opt_routes(&on_true);
                lemma_graft_unused(routes_of(l@), t, Some(right.routes()), None, None);
            }
            within(out, max_cubes)
        },
        ExprKind::Or { left, right } => {
            proof {
                lemma_routes_nonempty(&**right);
                lemma_graft_len(left.routes(), None, Some(right.routes()));
            }
            let l = paths(&**left, max_cubes)?;
            let on_false = if some_leaf(&l, Leaf::False) {
                Some(paths(&**right, max_cubes)?)
            } else {
                None
            };
            let out = graft(&l, &None, &on_false);
            proof {
                let f = opt_routes(&on_false);
                lemma_graft_unused(routes_of(l@), None, None, f, Some(right.routes()));
            }
            within(out, max_cubes)
        },
        ExprKind::If { test_expr, then_expr, else_expr } => {
            proof {
                lemma_routes_nonempty(&**then_expr);
                lemma_routes_nonempty(&**else_expr);
                lemma_graft_len(
                    test_expr.routes(),
                    Some(then_expr.routes()),
                    Some(else_expr.routes()),
                );
            }
            let c = paths(&**test_expr, max_cubes)?;
            let on_true = if some_leaf(&c, Leaf::True) {
                Some(paths(&**then_expr, max_cubes)?)
            } else {
                None
            };
            let on_false = if some_leaf(&c, Leaf::False) {
                Some(paths(&**else_expr, max_cubes)?)
            } else {
                None
            };
            let out = graft(&c, &on_true, &on_false);
            proof {
                let t = opt_routes(&on_true);
                let f = opt_routes(&on_false);
                lemma_graft_unused(
                    routes_of(c@),
                    t,
                    Some(then_expr.routes()),
                    f,
                    Some(else_expr.routes()),
                );
            }
            within(out, max_cubes)
        },
        _ => {
            let mut out: Vec<Path<T>> = Vec::new();
            out.push(atom_path(expr, false));
            out.push(atom_path(expr, true));
            assert(routes_of(out@) =~= expr.routes());
            within(out, max_cubes)
        },
    }
}

/// The path along one edge of the atom `expr`.
fn atom_path<T: Data>(expr: &Expr<T>, negated: bool) -> (r: Path<T>)
    ensures
        r.wf(),
        r@ == (Route {
            lits: seq![Lit { atom: *expr, negated }],
            leaf: if negated { Leaf::False } else { Leaf::True },
        }),
{
    let key = erase(expr);
    let lit = Literal { atom: Arc::new(expr.dup()), key, negated };
    let mut literals: Vec<Literal<T>> = Vec::new();
    literals.push(lit);
    let r = Path { literals, leaf: if negated { Leaf::False } else { Leaf::True } };
    assert(r@.lits =~= seq![Lit { atom: *expr, negated }]);
    r
}

/// A node of the decision tree: an atom, and the conditions under which the
/// tree evaluates it.
#[verifier::ext_equal]
pub struct Spot {
    pub prefix: Seq<(Tree, bool)>,
    pub atom: Tree,
}

impl<T> Route<T> {
    /// The `k`th node the path visits.
    pub open spec fn spot(self, k: int) -> Spot {
        Spot {
            prefix: Seq::new(k as nat, |i: int| (self.lits[i].key(), self.lits[i].negated)),
            atom: self.lits[k].key(),
        }
    }

    /// The path visits `s`.
    pub open spec fn visits(self, s: Spot) -> bool {
        exists|k: int| 0 <= k < self.lits.len() && s == #[trigger] self.spot(k)
    }

    /// The `k`th atom may error at a node that none of `others` visits.
    pub open spec fn exposes(
        self,
        k: int,
        others: Seq<Route<T>>,
        can_error: spec_fn(Expr<T>) -> bool,
    ) -> bool {
        &&& 0 <= k < self.lits.len()
        &&& can_error(self.lits[k].atom)
        &&& forall|j: int| 0 <= j < others.len() ==> !(#[trigger] others[j]).visits(self.spot(k))
    }

    /// The path can be true, or reproduces an error that `others` do not.
    pub open spec fn needed(
        self,
        others: Seq<Route<T>>,
        can_error: spec_fn(Expr<T>) -> bool,
    ) -> bool {
        self.leaf == Leaf::True || exists|k: int| #[trigger] self.exposes(k, others, can_error)
    }

    /// What is left of `routes + later` when those of `routes` that are not
    /// needed beside the ones still there are dropped, the last one first.
    pub open spec fn prune(
        routes: Seq<Route<T>>,
        later: Seq<Route<T>>,
        can_error: spec_fn(Expr<T>) -> bool,
    ) -> Seq<Route<T>>
        decreases routes.len(),
    {
        if routes.len() == 0 {
            later
        } else {
            let r = routes.last();
            let front = routes.drop_last();
            if r.needed(front + later, can_error) {
                Self::prune(front, seq![r] + later, can_error)
            } else {
                Self::prune(front, later, can_error)
            }
        }
    }

    /// The cube of the path.
    pub open spec fn cube(self) -> Conj<T> {
        Conj { lits: self.lits, never_true: self.leaf != Leaf::True }
    }
}

/// How many of the nodes of `p`, from the first, are nodes of `q` too.
fn shared<T>(p: &Path<T>, q: &Path<T>) -> (d: usize)
    requires
        p.wf(),
        q.wf(),
    ensures
        forall|k: int|
            0 <= k < p@.lits.len() ==> (k < d) == q@.visits(#[trigger] p@.spot(k)),
{
    let ghost pl = p@.lits;
    let ghost ql = q@.lits;
    let mut i: usize = 0;
    while i < p.literals.len() && i < q.literals.len()
        invariant
            i <= pl.len(),
            i <= ql.len(),
            p.wf(),
            q.wf(),
            pl == p@.lits,
            ql == q@.lits,
            forall|j: int| 0 <= j < i ==> pl[j].key() == ql[j].key() && pl[j].negated == ql[j].negated,
        decreases pl.len() - i,
    {
        let a = &p.literals[i];
        let b = &q.literals[i];
        assert(pl[i as int] == a@ && ql[i as int] == b@);
        if a.key != b.key {
            proof {
                lemma_shared(p@, q@, i as int, false);
            }
            return i;
        }
        if a.negated != b.negated {
            proof {
                lemma_shared(p@, q@, i as int, true);
            }
            return i + 1;
        }
        i += 1;
    }
    proof {
        lemma_shared(p@, q@, i as int, false);
    }
    i
}

/// Paths that agree up to `i` and part there share the nodes up to `i`, and
/// the one at `i` if they only part behind it.
proof fn lemma_shared<T>(p: Route<T>, q: Route<T>, i: int, same_atom: bool)
    requires
        0 <= i <= p.lits.len(),
        i <= q.lits.len(),
        forall|j: int|
            0 <= j < i ==> (#[trigger] p.lits[j]).key() == q.lits[j].key() && p.lits[j].negated
                == q.lits[j].negated,
        same_atom ==> i < p.lits.len() && i < q.lits.len() && p.lits[i].key() == q.lits[i].key()
            && p.lits[i].negated != q.lits[i].negated,
        !same_atom ==> i == p.lits.len() || i == q.lits.len() || p.lits[i].key()
            != q.lits[i].key(),
    ensures
        forall|k: int|
            0 <= k < p.lits.len() ==> (k < i + (if same_atom {
                1int
            } else {
                0
            })) == q.visits(#[trigger] p.spot(k)),
{
    let d = i + (if same_atom {
        1int
    } else {
        0
    });
    assert forall|k: int| 0 <= k < p.lits.len() implies (k < d) == q.visits(
        #[trigger] p.spot(k),
    ) by {
        if k < d {
            assert(p.spot(k) =~= q.spot(k));
        } else if q.visits(p.spot(k)) {
            let m = choose|m: int| 0 <= m < q.lits.len() && p.spot(k) == #[trigger] q.spot(m);
            assert(p.spot(k).prefix.len() == q.spot(m).prefix.len());
            assert(m == k);
            if k > i {
                assert(p.spot(k).prefix[i] == q.spot(k).prefix[i]);
            }
        }
    }
}

/// The paths that `kept` lists, from the last entry to the first.
pub open spec fn picked<T>(routes: Seq<Route<T>>, kept: Seq<usize>) -> Seq<Route<T>> {
    Seq::new(kept.len(), |j: int| routes[kept[kept.len() - 1 - j] as int])
}

/// Whether the path `at` is needed beside those before it and those that
/// `kept` lists.
fn needed<T, F: Fn(&Expr<T>) -> bool>(
    paths: &Vec<Path<T>>,
    kept: &Vec<usize>,
    at: usize,
    can_error: &F,
) -> (r: bool)
    requires
        all_wf(paths@),
        at < paths@.len(),
        forall|i: int| 0 <= i < kept@.len() ==> (#[trigger] kept@[i]) < paths@.len(),
        forall|e: Expr<T>| call_requires(can_error, (&e,)),
    ensures
        ({
            let rs = routes_of(paths@);
            forall|ce: spec_fn(Expr<T>) -> bool|
                #[trigger] crate::expr_util::computes(can_error, ce) ==> r == rs[at as int].needed(
                    rs.take(at as int) + picked(rs, kept@),
                    ce,
                )
        }),
{
    let ghost rs = routes_of(paths@);
    let ghost others = rs.take(at as int) + picked(rs, kept@);
    let p = &paths[at];
    assert(rs[at as int] == p@);
    if p.leaf == Leaf::True {
        return true;
    }
    // The nodes that another path visits come first.
    let mut d: usize = 0;
    let mut j: usize = 0;
    while j < at
        invariant
            j <= at < paths@.len(),
            all_wf(paths@),
            p.wf(),
            rs == routes_of(paths@),
            others == rs.take(at as int) + picked(rs, kept@),
            forall|k: int|
                0 <= k < p@.lits.len() ==> (k < d) == exists|i: int|
                    0 <= i < j && (#[trigger] others[i]).visits(#[trigger] p@.spot(k)),
        decreases at - j,
    {
        assert(others[j as int] == paths@[j as int]@);
        let s = shared(p, &paths[j]);
        if s > d {
            d = s;
        }
        j += 1;
    }
    let mut m: usize = kept.len();
    while m > 0
        invariant
            m <= kept@.len(),
            at < paths@.len(),
            all_wf(paths@),
            p.wf(),
            rs == routes_of(paths@),
            others == rs.take(at as int) + picked(rs, kept@),
            forall|i: int| 0 <= i < kept@.len() ==> (#[trigger] kept@[i]) < paths@.len(),
            forall|k: int|
                0 <= k < p@.lits.len() ==> (k < d) == exists|i: int|
                    0 <= i < at + kept@.len() - m && (#[trigger] others[i]).visits(
                        #[trigger] p@.spot(k),
                    ),
        decreases m,
    {
        m -= 1;
        let q = &paths[kept[m]];
        assert(others[at + kept@.len() - 1 - m] == q@);
        let s = shared(p, q);
        if s > d {
            d = s;
        }
    }
    assert(others.len() == at + kept@.len());
    let mut k: usize = d;
    while k < p.literals.len()
        invariant
            d <= k,
            at < paths@.len(),
            p.wf(),
            rs == routes_of(paths@),
            rs[at as int] == p@,
            others == rs.take(at as int) + picked(rs, kept@),
            p.leaf != Leaf::True,
            forall|k: int|
                0 <= k < p@.lits.len() ==> (k < d) == exists|i: int|
                    0 <= i < others.len() && (#[trigger] others[i]).visits(#[trigger] p@.spot(k)),
            forall|e: Expr<T>| call_requires(can_error, (&e,)),
            forall|ce: spec_fn(Expr<T>) -> bool|
                #[trigger] crate::expr_util::computes(can_error, ce) ==> forall|n: int|
                    d <= n < k && n < p@.lits.len() ==> !ce((#[trigger] p@.lits[n]).atom),
        decreases p@.lits.len() - k,
    {
        let lit = &p.literals[k];
        assert(p@.lits[k as int] == lit@);
        if can_error(&*lit.atom) {
            assert forall|ce: spec_fn(Expr<T>) -> bool| #[trigger]
                crate::expr_util::computes(can_error, ce) implies p@.needed(others, ce) by {
                assert(p@.exposes(k as int, others, ce));
            }
            return true;
        }
        k += 1;
    }
    assert forall|ce: spec_fn(Expr<T>) -> bool| #[trigger]
        crate::expr_util::computes(can_error, ce) implies !p@.needed(others, ce) by {
        assert forall|n: int| !(#[trigger] p@.exposes(n, others, ce)) by {
            if 0 <= n < p@.lits.len() {
                let s = p@.spot(n);
                if n < d {
                    let i = choose|i: int|
                        0 <= i < others.len() && (#[trigger] others[i]).visits(s);
                    assert(others[i].visits(p@.spot(n)));
                }
            }
        }
    }
    false
}

/// Turns paths into cubes, dropping the never-true ones that reproduce no
/// error the remaining cubes do not already reproduce: from the last one to
/// the first, a never-true path is kept iff it has a node whose atom
/// `can_error` and that no path still there visits.
pub(super) fn prune<T, F: Fn(&Expr<T>) -> bool>(paths: &Vec<Path<T>>, can_error: &F) -> (r: Vec<
    Cube<T>,
>)
    requires
        all_wf(paths@),
        forall|e: Expr<T>| call_requires(can_error, (&e,)),
    ensures
        forall|i: int| 0 <= i < r@.len() ==> (#[trigger] r@[i]).wf(),
        forall|ce: spec_fn(Expr<T>) -> bool|
            #[trigger] crate::expr_util::computes(can_error, ce) ==> r@.map_values(
                |c: Cube<T>| c@,
            ) == Route::prune(routes_of(paths@), seq![], ce).map_values(|r: Route<T>| r.cube()),
{
    let ghost rs = routes_of(paths@);
    let mut kept: Vec<usize> = Vec::new();
    let mut i: usize = paths.len();
    assert(rs.take(i as int) =~= rs);
    assert(picked(rs, kept@) =~= seq![]);
    while i > 0
        invariant
            i <= paths@.len(),
            all_wf(paths@),
            rs == routes_of(paths@),
            forall|e: Expr<T>| call_requires(can_error, (&e,)),
            forall|j: int| 0 <= j < kept@.len() ==> (#[trigger] kept@[j]) < paths@.len(),
            forall|ce: spec_fn(Expr<T>) -> bool|
                #[trigger] crate::expr_util::computes(can_error, ce) ==> Route::prune(
                    rs,
                    seq![],
                    ce,
                ) == Route::prune(rs.take(i as int), picked(rs, kept@), ce),
        decreases i,
    {
        i -= 1;
        let ghost before = picked(rs, kept@);
        assert(rs.take(i + 1).drop_last() =~= rs.take(i as int));
        assert(rs.take(i + 1).last() == rs[i as int]);
        if needed(paths, &kept, i, can_error) {
            kept.push(i);
            assert(picked(rs, kept@) =~= seq![rs[i as int]] + before);
        }
    }
    let ghost left = picked(rs, kept@);
    assert(rs.take(0) =~= seq![]);
    let mut cubes: Vec<Cube<T>> = Vec::new();
    let mut m: usize = kept.len();
    while m > 0
        invariant
            m <= kept@.len(),
            all_wf(paths@),
            rs == routes_of(paths@),
            left == picked(rs, kept@),
            cubes@.len() == kept@.len() - m,
            forall|j: int| 0 <= j < kept@.len() ==> (#[trigger] kept@[j]) < paths@.len(),
            forall|j: int|
                0 <= j < cubes@.len() ==> (#[trigger] cubes@[j]).wf() && cubes@[j]@
                    == left[j].cube(),
        decreases m,
    {
        m -= 1;
        let p = &paths[kept[m]];
        assert(left[kept@.len() - 1 - m] == p@);
        assert(p.wf());
        let c = Cube { literals: dup_literals(&p.literals), never_true: p.leaf != Leaf::True };
        assert(c@.lits =~= p@.lits);
        cubes.push(c);
    }
    assert(cubes@.map_values(|c: Cube<T>| c@) =~= left.map_values(|r: Route<T>| r.cube()));
    cubes
}

} // verus!
