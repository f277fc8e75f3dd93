//! What is said of all the parts of an expression, by where they stand.

use vstd::prelude::*;

use crate::ast::{PatternElem, SlotId};
use crate::evaluator::guards::{at_path, stands_in};
use crate::evaluator::metadata::EvaluationMetadata;
use crate::outcome::EvaluationOutcome;
use crate::slots::SlotEnv;
use crate::tree::{Op, Tree};
use crate::types::RequestEnv;

verus! {

/// What stands at `p` is gotten to before what stands at `q`: an expression
/// before its operands, and those from left to right.
pub open spec fn comes_first(p: Seq<int>, q: Seq<int>) -> bool
    decreases p.len(),
{
    if q.len() == 0 {
        false
    } else if p.len() == 0 {
        true
    } else {
        p[0] < q[0] || (p[0] == q[0] && comes_first(p.drop_first(), q.drop_first()))
    }
}

/// An expression stands in another exactly if it is that one or stands in an
/// operand.
proof fn lemma_stands(t: Tree, x: Tree)
    ensures
        stands_in(t, x) <==> t == x || exists|i: int|
            0 <= i < t.kids.len() && stands_in(#[trigger] t.kids[i], x),
{
    if t == x {
        assert(at_path(t, Seq::empty()) == Some(x));
    }
    if exists|i: int| 0 <= i < t.kids.len() && stands_in(#[trigger] t.kids[i], x) {
        let i = choose|i: int| 0 <= i < t.kids.len() && stands_in(#[trigger] t.kids[i], x);
        let p = choose|p: Seq<int>| #[trigger] at_path(t.kids[i], p) == Some(x);
        let q = seq![i] + p;
        assert(q.drop_first() =~= p);
        assert(at_path(t, q) == Some(x));
    }
    if stands_in(t, x) {
        let p = choose|p: Seq<int>| #[trigger] at_path(t, p) == Some(x);
        if p.len() > 0 {
            assert(at_path(t.kids[p[0]], p.drop_first()) == Some(x));
            assert(stands_in(t.kids[p[0]], x));
        }
    }
}

/// An expression is at most `n` deep exactly if nothing stands further down
/// than under `n - 1` others.
pub proof fn law_depth_is_that_of_the_deepest_part(t: Tree, n: nat)
    ensures
        t.fits(n) <==> forall|p: Seq<int>| #[trigger] at_path(t, p) is Some ==> p.len() < n,
    decreases n,
{
    if n == 0 {
        assert(at_path(t, Seq::empty()) is Some);
    } else {
        let m = (n - 1) as nat;
        if t.fits(n) {
            assert forall|p: Seq<int>| #[trigger] at_path(t, p) is Some implies p.len() < n by {
                if p.len() > 0 {
                    let k = t.kids[p[0]];
                    assert(k.fits(m));
                    law_depth_is_that_of_the_deepest_part(k, m);
                    assert(at_path(k, p.drop_first()) is Some);
                }
            }
        }
        if forall|p: Seq<int>| #[trigger] at_path(t, p) is Some ==> p.len() < n {
            assert forall|i: int| 0 <= i < t.kids.len() implies (#[trigger] t.kids[i]).fits(m) by {
                let k = t.kids[i];
                law_depth_is_that_of_the_deepest_part(k, m);
                assert forall|p: Seq<int>| #[trigger] at_path(k, p) is Some implies p.len() < m by {
                    let q = seq![i] + p;
                    assert(q.drop_first() =~= p);
                    assert(at_path(t, q) is Some);
                }
            }
        }
    }
}

/// The paths lead to the parts of `t` that are listed, in order, and every part
/// under one of the first `n` operands is listed.
spec fn lead_to(t: Tree, paths: Seq<Seq<int>>, parts: Seq<Tree>, n: int) -> bool {
    &&& paths.len() == parts.len()
    &&& forall|i: int|
        0 <= i < paths.len() ==> at_path(t, #[trigger] paths[i]) == Some(parts[i])
            && paths[i].len() > 0 && paths[i][0] < n
    &&& forall|i: int, j: int|
        0 <= i < j < paths.len() ==> comes_first(#[trigger] paths[i], #[trigger] paths[j])
    &&& forall|p: Seq<int>|
        p.len() > 0 && p[0] < n && (#[trigger] at_path(t, p)) is Some ==> paths.contains(p)
}

/// The sub-expressions of an expression are what stands at each place in it,
/// once for every place and a node before its operands; and the size is their
/// number.
pub proof fn law_every_part_is_listed(t: Tree) -> (paths: Seq<Seq<int>>)
    ensures
        paths.len() == t.subtrees().len(),
        t.subtrees().len() == t.size(),
        forall|i: int|
            0 <= i < paths.len() ==> at_path(t, #[trigger] paths[i]) == Some(t.subtrees()[i]),
        forall|i: int, j: int|
            0 <= i < j < paths.len() ==> comes_first(#[trigger] paths[i], #[trigger] paths[j]),
        forall|p: Seq<int>| (#[trigger] at_path(t, p)) is Some ==> paths.contains(p),
    decreases t, t.kids.len() + 1,
{
    let n = t.kids.len();
    let below = lemma_parts_below(t, n);
    let root = Seq::<int>::empty();
    let paths = seq![root] + below;
    assert(t.kids.take(n as int) =~= t.kids);
    assert forall|i: int| 0 <= i < paths.len() implies at_path(t, #[trigger] paths[i]) == Some(
        t.subtrees()[i],
    ) by {
        if i > 0 {
            assert(paths[i] == below[i - 1]);
            assert(t.subtrees()[i] == t.subtrees_below(n)[i - 1]);
        }
    }
    assert forall|i: int, j: int| 0 <= i < j < paths.len() implies comes_first(
        #[trigger] paths[i],
        #[trigger] paths[j],
    ) by {
        assert(paths[j] == below[j - 1]);
        if i > 0 {
            assert(paths[i] == below[i - 1]);
        }
    }
    assert forall|p: Seq<int>| (#[trigger] at_path(t, p)) is Some implies paths.contains(p) by {
        if p.len() == 0 {
            assert(p =~= root);
            assert(paths[0] == p);
        } else {
            let i = below.index_of(p);
            assert(paths[i + 1] == p);
        }
    }
    paths
}

proof fn lemma_parts_below(t: Tree, n: nat) -> (paths: Seq<Seq<int>>)
    requires
        n <= t.kids.len(),
    ensures
        lead_to(t, paths, t.subtrees_below(n), n as int),
        paths.len() == Tree::sizes(t.kids.take(n as int)),
    decreases t, n,
{
    if n == 0 {
        assert(t.kids.take(0) =~= seq![]);
        seq![]
    } else {
        let m = (n - 1) as nat;
        let k = t.kids[n - 1];
        let front = lemma_parts_below(t, m);
        let inner = law_every_part_is_listed(k);
        let last = Seq::new(inner.len(), |i: int| seq![n - 1] + inner[i]);
        let paths = front + last;
        let all = t.subtrees_below(n);
        assert(t.kids.take(n as int) =~= t.kids.take(m as int).push(k));
        lemma_sizes_push(t.kids.take(m as int), k);
        assert forall|i: int| 0 <= i < last.len() implies (#[trigger] last[i]).drop_first()
            == inner[i] && last[i].len() > 0 && last[i][0] == n - 1 && at_path(t, last[i]) == Some(
            k.subtrees()[i],
        ) by {
            assert(last[i].drop_first() =~= inner[i]);
        }
        assert forall|i: int| 0 <= i < paths.len() implies at_path(t, #[trigger] paths[i]) == Some(
            all[i],
        ) && paths[i].len() > 0 && paths[i][0] < n by {
            if i < front.len() {
                assert(paths[i] == front[i]);
            } else {
                assert(paths[i] == last[i - front.len()]);
            }
        }
        assert forall|i: int, j: int| 0 <= i < j < paths.len() implies comes_first(
            #[trigger] paths[i],
            #[trigger] paths[j],
        ) by {
            if j < front.len() {
                assert(paths[i] == front[i] && paths[j] == front[j]);
            } else {
                assert(paths[j] == last[j - front.len()]);
                if i < front.len() {
                    assert(paths[i] == front[i]);
                } else {
                    assert(paths[i] == last[i - front.len()]);
                    assert(comes_first(inner[i - front.len()], inner[j - front.len()]));
                }
            }
        }
        assert forall|p: Seq<int>|
            p.len() > 0 && p[0] < n && (#[trigger] at_path(t, p)) is Some implies paths.contains(
            p,
        ) by {
            if p[0] < m {
                let i = front.index_of(p);
                assert(paths[i] == p);
            } else {
                assert(at_path(k, p.drop_first()) is Some);
                let i = inner.index_of(p.drop_first());
                assert(last[i] =~= p);
                assert(paths[front.len() + i] == p);
            }
        }
        paths
    }
}

proof fn lemma_sizes_push(ts: Seq<Tree>, x: Tree)
    ensures
        Tree::sizes(ts.push(x)) == Tree::sizes(ts) + x.size(),
    decreases ts.len(),
{
    let all = ts.push(x);
    if ts.len() == 0 {
        assert(all.subrange(1, all.len() as int) =~= seq![]);
        assert(Tree::sizes(seq![]) == 0);
    } else {
        let rest = ts.subrange(1, ts.len() as int);
        assert(all.subrange(1, all.len() as int) =~= rest.push(x));
        lemma_sizes_push(rest, x);
    }
}

/// A value can differ from what it is symbolically, without an error, exactly
/// if a `has` or an `iferror` stands in the expression.
pub proof fn law_phantom_where_a_has_or_an_iferror_stands(t: Tree)
    ensures
        t.phantom() <==> exists|x: Tree| #[trigger]
            stands_in(t, x) && (x.op is HasAttr || x.is_iferror()),
    decreases t,
{
    lemma_stands(t, t);
    if t.phantom() {
        if t.op is HasAttr || t.is_iferror() {
            assert(stands_in(t, t));
        } else {
            let i = choose|i: int| 0 <= i < t.kids.len() && (#[trigger] t.kids[i]).phantom();
            law_phantom_where_a_has_or_an_iferror_stands(t.kids[i]);
            let x = choose|x: Tree| #[trigger]
                stands_in(t.kids[i], x) && (x.op is HasAttr || x.is_iferror());
            lemma_stands(t, x);
            assert(stands_in(t, x));
        }
    }
    if exists|x: Tree| #[trigger] stands_in(t, x) && (x.op is HasAttr || x.is_iferror()) {
        let x = choose|x: Tree| #[trigger]
            stands_in(t, x) && (x.op is HasAttr || x.is_iferror());
        lemma_stands(t, x);
        if t != x {
            let i = choose|i: int| 0 <= i < t.kids.len() && stands_in(#[trigger] t.kids[i], x);
            law_phantom_where_a_has_or_an_iferror_stands(t.kids[i]);
            assert(t.kids[i].phantom());
        }
    }
}

/// Somewhere in the pattern is a wildcard.
pub open spec fn is_open(p: Seq<PatternElem>) -> bool {
    exists|i: int| 0 <= i < p.len() && (#[trigger] p[i]) is Wildcard
}

/// Every `like` has a wildcard exactly if each that stands in the expression
/// has one.
pub proof fn law_every_like_is_looked_at(t: Tree)
    ensures
        t.likes_have_wildcards() <==> forall|x: Tree| #[trigger]
            stands_in(t, x) ==> (x.op matches Op::Like(p) ==> is_open(p)),
    decreases t,
{
    lemma_stands(t, t);
    if t.likes_have_wildcards() {
        assert forall|x: Tree| #[trigger] stands_in(t, x) implies (x.op matches Op::Like(p)
            ==> is_open(p)) by {
            lemma_stands(t, x);
            if t != x {
                let i = choose|i: int| 0 <= i < t.kids.len() && stands_in(#[trigger] t.kids[i], x);
                law_every_like_is_looked_at(t.kids[i]);
            } else if let Op::Like(p) = t.op {
                let i = choose|i: int| 0 <= i < p.len() && #[trigger] p[i] == PatternElem::Wildcard;
                assert(p[i] is Wildcard);
            }
        }
    }
    if forall|x: Tree| #[trigger]
        stands_in(t, x) ==> (x.op matches Op::Like(p) ==> is_open(p)) {
        assert(stands_in(t, t));
        if let Op::Like(p) = t.op {
            let i = choose|i: int| 0 <= i < p.len() && (#[trigger] p[i]) is Wildcard;
            assert(p[i] == PatternElem::Wildcard);
        }
        assert forall|i: int| 0 <= i < t.kids.len() implies (
        #[trigger] t.kids[i]).likes_have_wildcards() by {
            let k = t.kids[i];
            law_every_like_is_looked_at(k);
            assert forall|x: Tree| #[trigger] stands_in(k, x) implies (x.op matches Op::Like(p)
                ==> is_open(p)) by {
                lemma_stands(t, x);
                assert(stands_in(t, x));
            }
        }
    }
}

/// A slot without a binding stands at the path.
pub open spec fn is_unbound_at(t: Tree, env: SlotEnv, path: Seq<int>) -> bool {
    at_path(t, path) matches Some(x) && match x.op {
        Op::Slot(SlotId::Principal) => env.principal is None,
        Op::Slot(SlotId::Resource) => env.resource is None,
        _ => false,
    }
}

/// The slot that is found unbound is the first of those that are.
pub proof fn law_first_unbound_slot_is_found(t: Tree, env: SlotEnv) -> (at: Seq<int>)
    requires
        t.shaped(),
    ensures
        match t.unbound(env) {
            Some(s) => {
                &&& is_unbound_at(t, env, at)
                &&& at_path(t, at)->Some_0.op == Op::Slot(s)
                &&& forall|q: Seq<int>| #[trigger]
                    is_unbound_at(t, env, q) ==> q == at || comes_first(at, q)
            },
            None => forall|q: Seq<int>| !#[trigger] is_unbound_at(t, env, q),
        },
    decreases t, t.kids.len() + 1,
{
    if let Op::Slot(s) = t.op {
        let root = Seq::<int>::empty();
        assert(t.kids.len() == 0);
        assert forall|q: Seq<int>| #[trigger] is_unbound_at(t, env, q) implies q == root by {
            if q.len() > 0 {
                assert(at_path(t, q) is None);
            }
            assert(q =~= root);
        }
        assert(at_path(t, root) == Some(t));
        root
    } else {
        let at = lemma_first_unbound_of(t, env, t.kids.len());
        assert(t.kids.take(t.kids.len() as int) =~= t.kids);
        assert forall|q: Seq<int>| #[trigger] is_unbound_at(t, env, q) implies q.len() > 0 && q[0]
            < t.kids.len() by {
            if q.len() == 0 {
                assert(at_path(t, q) == Some(t));
            }
        }
        at
    }
}

proof fn lemma_first_unbound_of(t: Tree, env: SlotEnv, n: nat) -> (at: Seq<int>)
    requires
        t.shaped(),
        n <= t.kids.len(),
    ensures
        match Tree::first_unbound(t.kids.take(n as int), env) {
            Some(s) => {
                &&& at.len() > 0 && at[0] < n
                &&& is_unbound_at(t, env, at)
                &&& at_path(t, at)->Some_0.op == Op::Slot(s)
                &&& forall|q: Seq<int>| #[trigger]
                    is_unbound_at(t, env, q) && q.len() > 0 && q[0] < n ==> q == at || comes_first(
                        at,
                        q,
                    )
            },
            None => forall|q: Seq<int>|
                q.len() > 0 && q[0] < n ==> !#[trigger] is_unbound_at(t, env, q),
        },
    decreases t, n,
{
    let ts = t.kids.take(n as int);
    if n == 0 {
        assert forall|q: Seq<int>| q.len() > 0 && q[0] < 0 implies !#[trigger] is_unbound_at(
            t,
            env,
            q,
        ) by {
            assert(at_path(t, q) is None);
        }
        seq![]
    } else {
        let m = (n - 1) as nat;
        let k = t.kids[n - 1];
        assert(ts.drop_last() =~= t.kids.take(m as int));
        assert(ts.last() == k);
        assert(k.shaped());
        let front = lemma_first_unbound_of(t, env, m);
        let inner = law_first_unbound_slot_is_found(k, env);
        let last = seq![n - 1] + inner;
        assert(last.drop_first() =~= inner);
        assert forall|q: Seq<int>|
            q.len() > 0 && q[0] == n - 1 && #[trigger] is_unbound_at(t, env, q) implies
            is_unbound_at(k, env, q.drop_first()) && (q.drop_first() == inner ==> q == last) by {
            assert(q =~= seq![n - 1] + q.drop_first());
        }
        if Tree::first_unbound(t.kids.take(m as int), env) is Some {
            front
        } else {
            last
        }
    }
}

/// Two environments are the same exactly if their principals are of the same
/// type, their actions the same entity and their resources of the same type.
pub proof fn law_environments_are_told_apart(a: RequestEnv, b: RequestEnv)
    ensures
        a@ == b@ <==> a.principal@ == b.principal@ && a.action.ty@ == b.action.ty@ && a.action.eid@
            == b.action.eid@ && a.resource@ == b.resource@,
{
}

/// The name, if the outcome is in the set.
pub open spec fn name_in(s: Set<EvaluationOutcome>, o: EvaluationOutcome) -> Seq<Seq<char>> {
    if s.contains(o) {
        seq![
            match o {
                EvaluationOutcome::True => "True"@,
                EvaluationOutcome::False => "False"@,
                EvaluationOutcome::Error => "Error"@,
            },
        ]
    } else {
        seq![]
    }
}

/// The names, with commas between them.
pub open spec fn with_commas(names: Seq<Seq<char>>) -> Seq<char>
    decreases names.len(),
{
    if names.len() == 0 {
        seq![]
    } else if names.len() == 1 {
        names[0]
    } else {
        with_commas(names.drop_last()) + ", "@ + names.last()
    }
}

/// Outcomes are described by the names of those there are, with commas between
/// them and in braces.
pub proof fn law_outcomes_are_described_by_their_names(s: Set<EvaluationOutcome>)
    ensures
        EvaluationMetadata::text(s) == "{"@ + with_commas(
            name_in(s, EvaluationOutcome::True) + name_in(s, EvaluationOutcome::False) + name_in(
                s,
                EvaluationOutcome::Error,
            ),
        ) + "}"@,
{
    reveal_with_fuel(with_commas, 4);
    reveal_strlit("");
    let t = name_in(s, EvaluationOutcome::True);
    let f = name_in(s, EvaluationOutcome::False);
    let e = name_in(s, EvaluationOutcome::Error);
    let names = t + f + e;
    if e.len() > 0 {
        assert(names.drop_last() =~= t + f);
    } else {
        assert(names =~= t + f);
    }
    if f.len() > 0 {
        assert((t + f).drop_last() =~= t);
    } else {
        assert(t + f =~= t);
    }
    assert(EvaluationMetadata::text(s) =~= "{"@ + with_commas(names) + "}"@);
}

} // verus!
