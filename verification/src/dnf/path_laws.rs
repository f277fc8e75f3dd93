//! The order of the paths of the decision tree.

use vstd::prelude::*;

use crate::ast::{Expr, ExprKind, Prim, UnaryOp};

use super::paths::{Leaf, Route};
use super::Lit;

verus! {

impl<T> Route<T> {
    /// The paths part at a node: they are the same up to an atom, which is
    /// true on this path and not on `other`.
    pub open spec fn parts_first_from(self, other: Route<T>) -> bool {
        exists|k: int| #[trigger] self.parts_at(other, k)
    }

    /// The paths part at their literal `k`.
    pub open spec fn parts_at(self, other: Route<T>, k: int) -> bool {
        &&& 0 <= k < self.lits.len()
        &&& k < other.lits.len()
        &&& self.lits.take(k) == other.lits.take(k)
        &&& self.lits[k].atom == other.lits[k].atom
        &&& !self.lits[k].negated
        &&& other.lits[k].negated
    }

    /// The path starts with `lits`.
    spec fn starts_with(self, lits: Seq<Lit<T>>) -> bool {
        self.lits.len() >= lits.len() && self.lits.take(lits.len() as int) == lits
    }
}

/// Of any two of `rs` that can be followed to their ends, the earlier one
/// takes the `true` edge where they part.
spec fn true_edge_first<T>(rs: Seq<Route<T>>) -> bool {
    forall|i: int, j: int|
        0 <= i < j < rs.len() && (#[trigger] rs[i]).leaf != Leaf::Contradiction && (
        #[trigger] rs[j]).leaf != Leaf::Contradiction ==> rs[i].parts_first_from(rs[j])
}

/// A path that is continued starts as it was.
proof fn lemma_extend_starts<T>(lits: Seq<Lit<T>>, rest: Seq<Lit<T>>, leaf: Leaf)
    ensures
        Route::extend(lits, rest, leaf).starts_with(lits),
        Route::extend(lits, rest, leaf).leaf == leaf || Route::extend(lits, rest, leaf).leaf
            == Leaf::Contradiction,
    decreases rest.len(),
{
    if rest.len() == 0 {
        assert(lits.take(lits.len() as int) =~= lits);
    } else {
        match Route::find(lits, rest[0].key()) {
            None => {
                let more = lits.push(rest[0]);
                lemma_extend_starts(more, rest.drop_first(), leaf);
                let r = Route::extend(more, rest.drop_first(), leaf);
                assert(r.lits.take(lits.len() as int) =~= more.take(lits.len() as int)) by {
                    assert forall|i: int| 0 <= i < lits.len() implies r.lits[i] == more[i] by {
                        assert(r.lits.take(more.len() as int)[i] == r.lits[i]);
                    }
                }
                assert(more.take(lits.len() as int) =~= lits);
            },
            Some(negated) => {
                if negated == rest[0].negated {
                    lemma_extend_starts(lits, rest.drop_first(), leaf);
                } else {
                    assert(lits.take(lits.len() as int) =~= lits);
                }
            },
        }
    }
}

/// Paths that part, part also where they continue one path.
proof fn lemma_extend_parts<T>(lits: Seq<Lit<T>>, a: Route<T>, b: Route<T>, k: int)
    requires
        a.parts_at(b, k),
        Route::extend(lits, a.lits, a.leaf).leaf != Leaf::Contradiction,
        Route::extend(lits, b.lits, b.leaf).leaf != Leaf::Contradiction,
    ensures
        Route::extend(lits, a.lits, a.leaf).parts_first_from(
            Route::extend(lits, b.lits, b.leaf),
        ),
    decreases k,
{
    let x = Route::extend(lits, a.lits, a.leaf);
    let y = Route::extend(lits, b.lits, b.leaf);
    if k == 0 {
        assert(a.lits[0].key() == b.lits[0].key());
        assert(Route::find(lits, a.lits[0].key()) is None);
        let p = lits.push(a.lits[0]);
        let q = lits.push(b.lits[0]);
        lemma_extend_starts(p, a.lits.drop_first(), a.leaf);
        lemma_extend_starts(q, b.lits.drop_first(), b.leaf);
        let n = lits.len() as int;
        assert(x.lits.take(n + 1)[n] == x.lits[n] && p[n] == a.lits[0]);
        assert(y.lits.take(n + 1)[n] == y.lits[n] && q[n] == b.lits[0]);
        assert(x.lits.take(n) =~= lits) by {
            assert forall|i: int| 0 <= i < n implies x.lits[i] == lits[i] by {
                assert(x.lits.take(n + 1)[i] == p[i]);
            }
        }
        assert(y.lits.take(n) =~= lits) by {
            assert forall|i: int| 0 <= i < n implies y.lits[i] == lits[i] by {
                assert(y.lits.take(n + 1)[i] == q[i]);
            }
        }
        assert(x.parts_at(y, n));
    } else {
        assert(a.lits.take(k)[0] == a.lits[0] && b.lits.take(k)[0] == b.lits[0]);
        let c = Route { lits: a.lits.drop_first(), leaf: a.leaf };
        let d = Route { lits: b.lits.drop_first(), leaf: b.leaf };
        assert(c.lits.take(k - 1) =~= a.lits.take(k).drop_first());
        assert(d.lits.take(k - 1) =~= b.lits.take(k).drop_first());
        assert(c.parts_at(d, k - 1));
        match Route::find(lits, a.lits[0].key()) {
            None => lemma_extend_parts(lits.push(a.lits[0]), c, d, k - 1),
            Some(_) => lemma_extend_parts(lits, c, d, k - 1),
        }
    }
}

/// Paths that start as two that part, part.
proof fn lemma_starts_part<T>(a: Route<T>, b: Route<T>, x: Route<T>, y: Route<T>)
    requires
        a.parts_first_from(b),
        x.starts_with(a.lits),
        y.starts_with(b.lits),
    ensures
        x.parts_first_from(y),
{
    let k = choose|k: int| #[trigger] a.parts_at(b, k);
    let m = a.lits.len() as int;
    let n = b.lits.len() as int;
    assert(x.lits.take(m)[k] == x.lits[k]);
    assert(y.lits.take(n)[k] == y.lits[k]);
    assert(x.lits.take(k) =~= a.lits.take(k)) by {
        assert forall|i: int| 0 <= i < k implies x.lits[i] == a.lits[i] by {
            assert(x.lits.take(m)[i] == x.lits[i]);
        }
    }
    assert(y.lits.take(k) =~= b.lits.take(k)) by {
        assert forall|i: int| 0 <= i < k implies y.lits[i] == b.lits[i] by {
            assert(y.lits.take(n)[i] == y.lits[i]);
        }
    }
    assert(x.parts_at(y, k));
}

/// What a path is continued to.
proof fn lemma_onward<T>(r: Route<T>, subs: Option<Seq<Route<T>>>)
    requires
        subs is Some ==> true_edge_first(subs->Some_0),
        r.leaf != Leaf::Contradiction,
    ensures
        true_edge_first(r.onward(subs)),
        forall|i: int| 0 <= i < r.onward(subs).len() ==> (#[trigger] r.onward(subs)[i]).starts_with(
            r.lits,
        ),
{
    let all = r.onward(subs);
    match subs {
        Some(ss) => {
            assert forall|i: int| 0 <= i < all.len() implies (#[trigger] all[i]).starts_with(
                r.lits,
            ) by {
                lemma_extend_starts(r.lits, ss[i].lits, ss[i].leaf);
            }
            assert forall|i: int, j: int|
                0 <= i < j < all.len() && (#[trigger] all[i]).leaf != Leaf::Contradiction && (
                #[trigger] all[j]).leaf != Leaf::Contradiction implies all[i].parts_first_from(
                all[j],
            ) by {
                lemma_extend_starts(r.lits, ss[i].lits, ss[i].leaf);
                lemma_extend_starts(r.lits, ss[j].lits, ss[j].leaf);
                assert(ss[i].parts_first_from(ss[j]));
                let k = choose|k: int| #[trigger] ss[i].parts_at(ss[j], k);
                lemma_extend_parts(r.lits, ss[i], ss[j], k);
            }
        },
        None => {
            assert(r.lits.take(r.lits.len() as int) =~= r.lits);
        },
    }
}

/// Where the paths of a grafted tree come from.
proof fn lemma_graft_from<T>(
    rs: Seq<Route<T>>,
    t: Option<Seq<Route<T>>>,
    e: Option<Seq<Route<T>>>,
    i: int,
) -> (a: int)
    requires
        t is Some ==> true_edge_first(t->Some_0),
        e is Some ==> true_edge_first(e->Some_0),
        0 <= i < Route::graft(rs, t, e).len(),
        Route::graft(rs, t, e)[i].leaf != Leaf::Contradiction,
    ensures
        0 <= a < rs.len(),
        rs[a].leaf != Leaf::Contradiction,
        Route::graft(rs, t, e)[i].starts_with(rs[a].lits),
    decreases rs.len(),
{
    let front = Route::graft(rs.drop_last(), t, e);
    if i < front.len() {
        assert(Route::graft(rs, t, e)[i] == front[i]);
        let a = lemma_graft_from(rs.drop_last(), t, e, i);
        assert(rs[a] == rs.drop_last()[a]);
        a
    } else {
        let r = rs.last();
        match r.leaf {
            Leaf::True => lemma_onward(r, t),
            Leaf::False => lemma_onward(r, e),
            Leaf::Contradiction => {},
        }
        rs.len() - 1
    }
}

/// Grafting keeps the order.
proof fn lemma_graft_order<T>(
    rs: Seq<Route<T>>,
    t: Option<Seq<Route<T>>>,
    e: Option<Seq<Route<T>>>,
)
    requires
        true_edge_first(rs),
        t is Some ==> true_edge_first(t->Some_0),
        e is Some ==> true_edge_first(e->Some_0),
    ensures
        true_edge_first(Route::graft(rs, t, e)),
    decreases rs.len(),
{
    if rs.len() > 0 {
        let before = rs.drop_last();
        let r = rs.last();
        assert forall|i: int, j: int|
            0 <= i < j < before.len() && (#[trigger] before[i]).leaf != Leaf::Contradiction && (
            #[trigger] before[j]).leaf != Leaf::Contradiction implies before[i].parts_first_from(
            before[j],
        ) by {
            assert(rs[i].parts_first_from(rs[j]));
        }
        lemma_graft_order(before, t, e);
        let front = Route::graft(before, t, e);
        let all = Route::graft(rs, t, e);
        match r.leaf {
            Leaf::True => lemma_onward(r, t),
            Leaf::False => lemma_onward(r, e),
            Leaf::Contradiction => {},
        }
        let tail = match r.leaf {
            Leaf::True => r.onward(t),
            Leaf::False => r.onward(e),
            Leaf::Contradiction => seq![r],
        };
        assert(all == front + tail);
        assert forall|i: int, j: int|
            0 <= i < j < all.len() && (#[trigger] all[i]).leaf != Leaf::Contradiction && (
            #[trigger] all[j]).leaf != Leaf::Contradiction implies all[i].parts_first_from(
            all[j],
        ) by {
            let n = front.len() as int;
            if j < n {
                assert(all[i] == front[i] && all[j] == front[j]);
                assert(front[i].parts_first_from(front[j]));
            } else if i >= n {
                assert(all[i] == tail[i - n] && all[j] == tail[j - n]);
                assert(tail[i - n].parts_first_from(tail[j - n]));
            } else {
                assert(all[i] == front[i] && all[j] == tail[j - n]);
                let a = lemma_graft_from(before, t, e, i);
                assert(before[a] == rs[a]);
                assert(rs[a].parts_first_from(rs[rs.len() - 1]));
                lemma_starts_part(rs[a], r, all[i], all[j]);
            }
        }
    }
}

/// The paths of the decision tree of `e` are in its order.
proof fn lemma_routes_order<T>(e: &Expr<T>)
    ensures
        true_edge_first(e.routes()),
    decreases e,
{
    let rs = e.routes();
    match e.kind {
        ExprKind::Lit(Prim::Bool(_)) => {},
        ExprKind::UnaryApp { op: UnaryOp::Not, arg } => {
            lemma_routes_order(&*arg);
            let inner = arg.routes();
            assert forall|i: int, j: int|
                0 <= i < j < rs.len() && (#[trigger] rs[i]).leaf != Leaf::Contradiction && (
                #[trigger] rs[j]).leaf != Leaf::Contradiction implies rs[i].parts_first_from(
                rs[j],
            ) by {
                assert(inner[i].parts_first_from(inner[j]));
                let k = choose|k: int| #[trigger] inner[i].parts_at(inner[j], k);
                assert(rs[i].parts_at(rs[j], k));
            }
        },
        ExprKind::And { left, right } => {
            lemma_routes_order(&*left);
            lemma_routes_order(&*right);
            lemma_graft_order(left.routes(), Some(right.routes()), None);
        },
        ExprKind::Or { left, right } => {
            lemma_routes_order(&*left);
            lemma_routes_order(&*right);
            lemma_graft_order(left.routes(), None, Some(right.routes()));
        },
        ExprKind::If { test_expr, then_expr, else_expr } => {
            lemma_routes_order(&*test_expr);
            lemma_routes_order(&*then_expr);
            lemma_routes_order(&*else_expr);
            lemma_graft_order(
                test_expr.routes(),
                Some(then_expr.routes()),
                Some(else_expr.routes()),
            );
        },
        _ => {
            assert(rs[0].lits.take(0) =~= rs[1].lits.take(0));
            assert(rs[0].parts_at(rs[1], 0));
        },
    }
}

/// The paths come in depth-first order, `true` edge first: of any two paths
/// that can be followed to their ends, the earlier one takes the `true` edge
/// of the node at which they part. In particular they do part.
pub proof fn law_true_edge_comes_first<T>(e: &Expr<T>, i: int, j: int)
    requires
        0 <= i < j < e.routes().len(),
        e.routes()[i].leaf != Leaf::Contradiction,
        e.routes()[j].leaf != Leaf::Contradiction,
    ensures
        e.routes()[i].parts_first_from(e.routes()[j]),
{
    lemma_routes_order(e);
}

} // verus!
