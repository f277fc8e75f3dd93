//! Combining a policy set's allow and deny policies into allow policies only.

use std::sync::Arc;

use vstd::prelude::*;

use crate::ast::{Data, Expr, ExprKind};
use crate::model::{Value, World};
use crate::policy::{Effect, Policy, PolicySet, PolicyView};
use crate::text::before;
use crate::tree::{Op, Tree};

use super::policy::{split_policy_set, static_instance};
use super::split::{and_chain, conjuncts};
use super::{and, bool_lit, node, not, or, DnfError};

verus! {

impl Tree {
    /// `iferror(t, false)`
    pub open spec fn true_or_false(t: Tree) -> Tree {
        Tree { op: Op::Call("iferror"@), kids: seq![t, Tree::bool(false)] }
    }

    /// `!iferror(t, false)`
    pub open spec fn not_true(t: Tree) -> Tree {
        Tree::not(Tree::true_or_false(t))
    }

    /// The witness that the `&&`-chain `ds` is not true.
    pub open spec fn deny_witness(ds: Seq<Tree>) -> Tree
        decreases ds.len(),
    {
        if ds.len() == 0 {
            Tree::bool(false)
        } else if ds.len() == 1 {
            Tree::not_true(ds[0])
        } else {
            Tree::or(
                Tree::not_true(ds[0]),
                Tree::and(ds[0], Tree::deny_witness(ds.drop_first())),
            )
        }
    }
}

impl PolicyView {
    /// The conjuncts of the full condition: the three scope constraints and
    /// then the `when` clause, each flattened.
    pub open spec fn conjuncts(self) -> Seq<Tree> {
        self.principal.spine(true) + self.action.spine(true) + self.resource.spine(true) + match self.when {
            Some(t) => t.spine(true),
            None => seq![],
        }
    }

    /// `p` put into `sorted` in the order of their ids.
    pub open spec fn inserted(sorted: Seq<PolicyView>, p: PolicyView) -> Seq<PolicyView>
        decreases sorted.len(),
    {
        if sorted.len() > 0 && crate::text::comes_before(p.id, sorted.last().id) {
            Self::inserted(sorted.drop_last(), p).push(sorted.last())
        } else {
            sorted.push(p)
        }
    }

    /// The forbids of `ps` in the order of their ids.
    pub open spec fn forbids(ps: Seq<PolicyView>) -> Seq<PolicyView>
        decreases ps.len(),
    {
        if ps.len() == 0 {
            seq![]
        } else if ps.last().effect == Effect::Forbid {
            Self::inserted(Self::forbids(ps.drop_last()), ps.last())
        } else {
            Self::forbids(ps.drop_last())
        }
    }

    /// The witnesses that the policies of `fs` are not true.
    pub open spec fn witnesses(fs: Seq<PolicyView>) -> Seq<Tree> {
        fs.map_values(|f: PolicyView| Tree::deny_witness(f.conjuncts()))
    }

    /// The permit with the witnesses `ws` added to its condition.
    pub open spec fn with_witnesses(self, ws: Seq<Tree>) -> PolicyView {
        PolicyView {
            when: Some(
                Tree::and_chain(
                    (match self.when {
                        Some(t) => seq![t],
                        None => seq![],
                    }) + ws,
                ),
            ),
            ..self
        }
    }

    /// The permits of `ps`, each with the witnesses `ws` added.
    pub open spec fn combined(ps: Seq<PolicyView>, ws: Seq<Tree>) -> Seq<PolicyView>
        decreases ps.len(),
    {
        if ps.len() == 0 {
            seq![]
        } else if ps.last().effect == Effect::Permit {
            Self::combined(ps.drop_last(), ws).push(ps.last().with_witnesses(ws))
        } else {
            Self::combined(ps.drop_last(), ws)
        }
    }

    /// The ids are in order.
    pub open spec fn ordered(ps: Seq<PolicyView>) -> bool {
        forall|i: int, j: int|
            0 <= i < j < ps.len() ==> !crate::text::comes_before(
                (#[trigger] ps[j]).id,
                (#[trigger] ps[i]).id,
            )
    }
}

/// Appends the conjuncts of `e` to `out`.
fn push_conjuncts(e: &Expr<()>, out: &mut Vec<Expr<()>>)
    ensures
        crate::ast::trees(final(out)@) == crate::ast::trees(old(out)@) + e.tree().spine(true),
{
    let ghost start = crate::ast::trees(out@);
    let cs = conjuncts(e);
    let ghost all = e.tree().spine(true);
    let mut i: usize = 0;
    assert(start + all.take(0) =~= start);
    while i < cs.len()
        invariant
            i <= cs@.len(),
            all == crate::ast::trees_of(cs@),
            crate::ast::trees(out@) =~= start + all.take(i as int),
        decreases cs@.len() - i,
    {
        let ghost so_far = crate::ast::trees(out@);
        out.push(cs[i].dup());
        assert(all[i as int] == cs@[i as int].tree());
        assert(crate::ast::trees(out@) =~= so_far.push(all[i as int]));
        i += 1;
    }
    assert(all.take(i as int) =~= all);
}

/// The conjuncts of a forbid's full condition: its three scope constraints
/// (with any template slot filled) and then its `when` clause, each flattened
/// by [`conjuncts`].
fn chain(f: &Policy) -> (r: Vec<Expr<()>>)
    ensures
        crate::ast::trees(r@) == f@.conjuncts(),
{
    let mut out: Vec<Expr<()>> = Vec::new();
    push_conjuncts(&f.principal_expr(), &mut out);
    push_conjuncts(&f.action_expr(), &mut out);
    push_conjuncts(&f.resource_expr(), &mut out);
    if let Some(when) = &f.when {
        push_conjuncts(&**when, &mut out);
    }
    assert(crate::ast::trees(out@) =~= f@.conjuncts());
    out
}

/// `!iferror(d, false)`: `true` exactly when `d` is not `true` (false or
/// erring), never erring for a boolean-or-error `d`.
fn not_true(d: &Expr<()>) -> (r: Expr<()>)
    ensures
        r.tree() == Tree::not_true(d.tree()),
{
    let mut args: Vec<Expr<()>> = Vec::new();
    args.push(d.dup());
    args.push(bool_lit(false));
    let call = node(
        ExprKind::ExtensionFunctionApp { fn_name: "iferror".to_owned(), args: Arc::new(args) },
    );
    assert(call.tree().kids =~= Tree::true_or_false(d.tree()).kids);
    not(call)
}

/// The witness that the `&&`-chain `ds` is *not* true, nested right:
/// `!iferror(d1, false) || (d1 && (!iferror(d2, false) || (d2 && .. !iferror(dk, false))))`.
/// On any input on which every `d` is boolean-or-error it evaluates to a
/// boolean (never errs), `true` exactly when `d1 && .. && dk` is not `true`. An
/// empty chain is `true`, so its witness is `false`.
pub fn deny_witness(ds: &Vec<Expr<()>>) -> (r: Expr<()>)
    ensures
        r.tree() == Tree::deny_witness(crate::ast::trees(ds@)),
{
    let ghost all = crate::ast::trees(ds@);
    if ds.len() == 0 {
        return bool_lit(false);
    }
    let mut i: usize = ds.len() - 1;
    let mut acc = not_true(&ds[i]);
    assert(all.skip(i as int) =~= seq![ds@[i as int].tree()]);
    while i > 0
        invariant
            i < ds@.len(),
            all == crate::ast::trees(ds@),
            acc.tree() == Tree::deny_witness(all.skip(i as int)),
        decreases i,
    {
        assert(all.skip(i - 1).drop_first() =~= all.skip(i as int));
        assert(all.skip(i - 1)[0] == ds@[i - 1].tree());
        i -= 1;
        acc = or(not_true(&ds[i]), and(ds[i].dup(), acc));
    }
    assert(all.skip(0) =~= all);
    acc
}

/// What the policies that `ps` refers to are.
pub open spec fn views_of(ps: Seq<&Policy>) -> Seq<PolicyView> {
    ps.map_values(|p: &Policy| p@)
}

/// Puts `p` into `sorted` in the order of their ids.
fn insert_by_id<'a>(sorted: &mut Vec<&'a Policy>, p: &'a Policy)
    ensures
        views_of(final(sorted)@) == PolicyView::inserted(views_of(old(sorted)@), p@),
{
    let ghost all = views_of(sorted@);
    let mut at: usize = sorted.len();
    assert(all.take(at as int) =~= all);
    assert(all.skip(at as int) =~= seq![]);
    assert(PolicyView::inserted(all, p@) + seq![] =~= PolicyView::inserted(all, p@));
    while at > 0 && before(&p.id, &sorted[at - 1].id)
        invariant
            at <= sorted@.len(),
            all == views_of(sorted@),
            PolicyView::inserted(all, p@) == PolicyView::inserted(all.take(at as int), p@)
                + all.skip(at as int),
        decreases at,
    {
        let ghost front = all.take(at as int);
        assert(front.drop_last() =~= all.take(at - 1));
        assert(front.last() == all[at - 1]);
        assert(all[at - 1] == sorted@[at - 1]@);
        assert(PolicyView::inserted(front, p@) == PolicyView::inserted(all.take(at - 1), p@).push(
            all[at - 1],
        ));
        assert(PolicyView::inserted(all.take(at - 1), p@).push(all[at - 1]) + all.skip(at as int)
            =~= PolicyView::inserted(all.take(at - 1), p@) + all.skip(at - 1));
        at -= 1;
    }
    assert(PolicyView::inserted(all.take(at as int), p@) == all.take(at as int).push(p@)) by {
        if at > 0 {
            assert(all.take(at as int).last() == sorted@[at - 1]@);
        }
    }
    sorted.insert(at, p);
    assert(views_of(sorted@) =~= all.take(at as int).push(p@) + all.skip(at as int));
}

/// Some permit, as it is or with the witnesses added, has a slot that is not
/// linked.
pub open spec fn combine_fails(policies: &PolicySet) -> bool {
    exists|i: int|
        0 <= i < policies.items().len() && permit_fails(
            #[trigger] policies.items()[i],
            PolicyView::witnesses(PolicyView::forbids(policies@)),
        )
}

/// `p` is a permit that, as it is or with the witnesses `ws` added, has a slot
/// that is not linked.
pub open spec fn permit_fails(p: Policy, ws: Seq<Tree>) -> bool {
    &&& p.effect == Effect::Permit
    &&& p.unfilled() || p@.with_witnesses(ws).condition().has_slot()
}

/// Rewrites `policies` into **allow policies only** with the same
/// authorization decision on every input on which the forbids' conjuncts are
/// boolean-or-error (everything that validates). Every permit `P` becomes one
/// permit with `P`'s scope and annotations and the `when` condition
/// `when_P && W(F1) && .. && W(Fm)`, where `W(F)` is [`deny_witness`] over the
/// `&&`-spine of `F`'s full condition (scope included) and the forbids are
/// taken in order of their ids; the forbids themselves are dropped. A permit
/// without a `when` clause contributes no conjunct; without forbids every
/// permit is carried over unchanged (template-linked policies become
/// equivalent static ones, and a permit without a `when` clause gets
/// `when { true }`).
pub fn combine_allow_deny(policies: &PolicySet) -> (r: Result<PolicySet, DnfError>)
    ensures
        match r {
            Ok(out) => {
                &&& !combine_fails(policies)
                &&& out@ == PolicyView::combined(
                    policies@,
                    PolicyView::witnesses(PolicyView::forbids(policies@)),
                )
                &&& super::policy::policy_views(out.items()) == out@
                &&& Policy::all_static(out.items())
                &&& super::policy::copies_error(out.items(), 0) is None
            },
            Err(e) => {
                &&& combine_fails(policies)
                &&& e == DnfError::Unsupported("policy with an unfilled slot")
            },
        },
{
    let all = policies.policies();
    let ghost views = policies@;
    assert(super::policy::policy_views(all@) == views);
    let mut forbids: Vec<&Policy> = Vec::new();
    let mut i: usize = 0;
    assert(views.take(0) =~= seq![]);
    assert(views_of(forbids@) =~= seq![]);
    while i < all.len()
        invariant
            i <= all@.len(),
            views == super::policy::policy_views(all@),
            views_of(forbids@) == PolicyView::forbids(views.take(i as int)),
        decreases all@.len() - i,
    {
        assert(views.take(i + 1).drop_last() =~= views.take(i as int));
        assert(views[i as int] == all@[i as int]@);
        if all[i].effect == Effect::Forbid {
            insert_by_id(&mut forbids, &all[i]);
        }
        i += 1;
    }
    assert(views.take(i as int) =~= views);
    let ghost fs = PolicyView::forbids(views);
    let ghost ws = PolicyView::witnesses(fs);
    let mut witnesses: Vec<Expr<()>> = Vec::new();
    let mut j: usize = 0;
    while j < forbids.len()
        invariant
            j <= forbids@.len(),
            fs == views_of(forbids@),
            ws == PolicyView::witnesses(fs),
            crate::ast::trees(witnesses@) =~= ws.take(j as int),
        decreases forbids@.len() - j,
    {
        let ghost so_far = crate::ast::trees(witnesses@);
        let w = deny_witness(&chain(forbids[j]));
        assert(fs[j as int] == forbids@[j as int]@);
        assert(ws[j as int] == w.tree());
        witnesses.push(w);
        assert(crate::ast::trees(witnesses@) =~= so_far.push(w.tree()));
        j += 1;
    }
    assert(ws.take(j as int) =~= ws);
    let mut out = PolicySet::new();
    let mut k: usize = 0;
    assert(views.take(0) =~= seq![]);
    while k < all.len()
        invariant
            k <= all@.len(),
            views == super::policy::policy_views(all@),
            views == policies@,
            PolicyView::distinct_ids(views),
            ws == PolicyView::witnesses(PolicyView::forbids(policies@)),
            crate::ast::trees(witnesses@) == ws,
            out@ == PolicyView::combined(views.take(k as int), ws),
            all@ == policies.items(),
            super::policy::policy_views(out.items()) == out@,
            Policy::all_static(out.items()),
            forall|m: int| 0 <= m < k ==> !permit_fails(#[trigger] all@[m], ws),
            forall|m: int|
                0 <= m < out@.len() ==> id_among((#[trigger] out@[m]).id, views.take(k as int)),
        decreases all@.len() - k,
    {
        let policy = &all[k];
        assert(views.take(k + 1).drop_last() =~= views.take(k as int));
        assert(views[k as int] == policy@);
        let ghost before_out = out@;
        let ghost before_items = out.items();
        assert(all@[k as int] == *policy);
        if policy.effect == Effect::Permit {
            // nested right, `when && (W1 && (W2 && ..))`
            let mut terms: Vec<Expr<()>> = Vec::new();
            if let Some(when) = &policy.when {
                terms.push(when.dup());
            }
            let ghost head = crate::ast::trees(terms@);
            assert(head =~= (match policy@.when {
                Some(t) => seq![t],
                None => seq![],
            }));
            let terms = super::split::extend(&terms, &witnesses);
            let combined = and_chain(&terms);
            assert(Some(combined.tree()) == policy@.with_witnesses(ws).when);
            match static_instance(policy, policy.id.clone(), Effect::Permit, Some(combined)) {
                Ok(allow) => {
                    assert(allow@ == policy@.with_witnesses(ws));
                    let added = out.add(allow);
                    proof {
                        if added is Err {
                            let m = choose|m: int|
                                0 <= m < before_out.len() && (#[trigger] before_out[m]).id
                                    == policy@.id;
                            assert(id_among(before_out[m].id, views.take(k as int)));
                            let a = choose|a: int|
                                0 <= a < k && (#[trigger] views.take(k as int)[a]).id
                                    == policy@.id;
                            assert(views[a].id == views[k as int].id);
                            assert(false);
                        }
                    }
                    if added.is_err() {
                        return Err(DnfError::Unsupported("duplicate policy id"));
                    }
                    assert(super::policy::policy_views(out.items())
                        =~= super::policy::policy_views(before_items).push(allow@));
                },
                Err(e) => {
                    assert(permit_fails(policies.items()[k as int], ws));
                    return Err(e);
                },
            }
        }
        assert forall|m: int| 0 <= m < out@.len() implies id_among(
            (#[trigger] out@[m]).id,
            views.take(k + 1),
        ) by {
            if m < before_out.len() {
                assert(out@[m] == before_out[m]);
                assert(id_among(before_out[m].id, views.take(k as int)));
                let a = choose|a: int|
                    0 <= a < k && (#[trigger] views.take(k as int)[a]).id == out@[m].id;
                assert(views.take(k + 1)[a].id == out@[m].id);
            } else {
                assert(views.take(k + 1)[k as int].id == out@[m].id);
            }
        }
        k += 1;
    }
    assert(views.take(k as int) =~= views);
    let items = out.policies();
    proof {
        lemma_static_copies(items@, 0);
    }
    Ok(out)
}

/// Copies of static policies with distinct ids can be made.
proof fn lemma_static_copies(ps: Seq<Policy>, i: int)
    requires
        Policy::all_static(ps),
        PolicyView::distinct_ids(super::policy::policy_views(ps)),
    ensures
        super::policy::copies_error(ps, i) is None,
    decreases ps.len() - i,
{
    if 0 <= i < ps.len() {
        assert forall|j: int| 0 <= j < i implies (#[trigger] ps[j])@.id != ps[i]@.id by {
            let vs = super::policy::policy_views(ps);
            assert(vs[j].id != vs[i].id);
        }
        lemma_static_copies(ps, i + 1);
    }
}

/// One of `ps` has the id `id`.
spec fn id_among(id: Seq<char>, ps: Seq<PolicyView>) -> bool {
    exists|a: int| 0 <= a < ps.len() && (#[trigger] ps[a]).id == id
}

/// [`combine_allow_deny`] followed by [`split_policy_set`]: the allow-only
/// **cube** policies, one per DNF cube of each combined permit. Same decision
/// as `policies` on every input where the forbids' conjuncts are
/// boolean-or-error; the budgets bound the blow-up. What `validator` validates
/// is the *combined* permits' static copies, so a forbid is typed in the
/// permit environments it can reach, past the scope conjuncts.
pub fn allow_cubes<V: Fn(&PolicySet) -> Vec<String>>(
    policies: &PolicySet,
    validator: &V,
    max_split_nodes: usize,
    max_cubes: usize,
) -> (r: Result<PolicySet, DnfError>)
    requires
        forall|s: PolicySet| call_requires(validator, (&s,)),
    ensures
        if combine_fails(policies) {
            r == Err::<PolicySet, DnfError>(DnfError::Unsupported("policy with an unfilled slot"))
        } else {
            exists|ps: Seq<Policy>, v: Result<(), DnfError>| #[trigger]
                super::policy::validates(ps, validator, v) && super::policy::policy_views(ps)
                    == PolicyView::combined(
                    policies@,
                    PolicyView::witnesses(PolicyView::forbids(policies@)),
                ) && Policy::all_static(ps) && super::policy::copies_error(ps, 0) is None
                    && match v {
                    Err(e) => r == Err::<PolicySet, DnfError>(e),
                    Ok(_) => super::policy::set_splits(ps, max_split_nodes, max_cubes, r),
                }
        },
{
    let combined = combine_allow_deny(policies)?;
    let r = split_policy_set(&combined, validator, max_split_nodes, max_cubes);
    assert(super::policy::policy_views(combined.items()) == combined@);
    r
}

/// `t` evaluates to a boolean or errs.
pub open spec fn bool_or_error(t: Tree, w: World) -> bool {
    t.eval(w) matches Ok(v) ==> v is Bool
}

/// All of `ts` are true.
pub open spec fn all_true(ts: Seq<Tree>, w: World) -> bool {
    forall|i: int|
        0 <= i < ts.len() ==> (#[trigger] ts[i]).eval(w) == Ok::<Value, int>(Value::Bool(true))
}

/// Each of `ds` that is reached, the ones before it all being true, evaluates
/// to a boolean or errs.
pub open spec fn fit(ds: Seq<Tree>, w: World) -> bool {
    forall|i: int|
        0 <= i < ds.len() && all_true(ds.take(i), w) ==> bool_or_error(#[trigger] ds[i], w)
}

proof fn lemma_not_true(d: Tree, w: World)
    requires
        bool_or_error(d, w),
    ensures
        Tree::not_true(d).eval(w) == Ok::<Value, int>(
            Value::Bool(d.eval(w) != Ok::<Value, int>(Value::Bool(true))),
        ),
{
    let c = Tree::true_or_false(d);
    let n = Tree::not_true(d);
    assert(c.kids[0] == d && c.kids[1] == Tree::bool(false));
    assert(n.kids[0] == c);
    assert(Tree::bool(false).eval(w) == Ok::<Value, int>(Value::Bool(false)));
    assert(c.is_iferror());
    assert(c.eval(w) == Ok::<Value, int>(
        Value::Bool(d.eval(w) == Ok::<Value, int>(Value::Bool(true))),
    ));
}

/// On every input on which each of `ds` is a boolean or errs, as far as the
/// chain of `ds` gets, the witness is a boolean, true exactly where the chain
/// is not.
pub proof fn law_deny_witness(ds: Seq<Tree>, w: World)
    requires
        fit(ds, w),
    ensures
        Tree::deny_witness(ds).eval(w) == Ok::<Value, int>(Value::Bool(!all_true(ds, w))),
    decreases ds.len(),
{
    if ds.len() == 0 {
    } else {
        assert(ds.take(0) =~= seq![]);
        assert(bool_or_error(ds[0], w));
        lemma_not_true(ds[0], w);
        if ds.len() == 1 {
            assert(all_true(ds, w) == (ds[0].eval(w) == Ok::<Value, int>(Value::Bool(true))));
        } else {
            let rest = ds.drop_first();
            let inner = Tree::and(ds[0], Tree::deny_witness(rest));
            let t = Tree::or(Tree::not_true(ds[0]), inner);
            assert(inner.kids[0] == ds[0] && inner.kids[1] == Tree::deny_witness(rest));
            assert(t.kids[0] == Tree::not_true(ds[0]) && t.kids[1] == inner);
            if ds[0].eval(w) == Ok::<Value, int>(Value::Bool(true)) {
                assert forall|i: int|
                    0 <= i < rest.len() && all_true(rest.take(i), w) implies bool_or_error(
                    #[trigger] rest[i],
                    w,
                ) by {
                    assert(all_true(ds.take(i + 1), w)) by {
                        assert forall|j: int| 0 <= j < i + 1 implies (#[trigger] ds.take(
                            i + 1,
                        )[j]).eval(w) == Ok::<Value, int>(Value::Bool(true)) by {
                            if j > 0 {
                                assert(rest.take(i)[j - 1] == ds[j]);
                            }
                        }
                    }
                    assert(bool_or_error(ds[i + 1], w));
                }
                law_deny_witness(rest, w);
                assert(all_true(ds, w) == all_true(rest, w)) by {
                    if all_true(rest, w) {
                        assert forall|i: int| 0 <= i < ds.len() implies (#[trigger] ds[i]).eval(w)
                            == Ok::<Value, int>(Value::Bool(true)) by {
                            if i > 0 {
                                assert(rest[i - 1] == ds[i]);
                            }
                        }
                    }
                    if all_true(ds, w) {
                        assert forall|i: int| 0 <= i < rest.len() implies (
                        #[trigger] rest[i]).eval(w) == Ok::<Value, int>(Value::Bool(true)) by {
                            assert(ds[i + 1] == rest[i]);
                        }
                    }
                }
                assert(inner.eval(w) == Ok::<Value, int>(Value::Bool(!all_true(ds, w))));
                assert(t.eval(w) == inner.eval(w));
            } else {
                assert(!all_true(ds, w));
                assert(t.eval(w) == Ok::<Value, int>(Value::Bool(true)));
            }
        }
    }
}

/// Appending keeps everything true.
proof fn lemma_all_true_append(a: Seq<Tree>, b: Seq<Tree>, w: World)
    ensures
        all_true(a + b, w) == (all_true(a, w) && all_true(b, w)),
{
    if all_true(a + b, w) {
        assert forall|i: int| 0 <= i < a.len() implies (#[trigger] a[i]).eval(w) == Ok::<
            Value,
            int,
        >(Value::Bool(true)) by {
            assert((a + b)[i] == a[i]);
        }
        assert forall|i: int| 0 <= i < b.len() implies (#[trigger] b[i]).eval(w) == Ok::<
            Value,
            int,
        >(Value::Bool(true)) by {
            assert((a + b)[i + a.len()] == b[i]);
        }
    }
    if all_true(a, w) && all_true(b, w) {
        assert forall|i: int| 0 <= i < (a + b).len() implies (#[trigger] (a + b)[i]).eval(w) == Ok::<
            Value,
            int,
        >(Value::Bool(true)) by {
            if i < a.len() {
                assert((a + b)[i] == a[i]);
            } else {
                assert((a + b)[i] == b[i - a.len()]);
            }
        }
    }
}

/// An expression is true exactly where its conjuncts are.
proof fn lemma_spine_true(t: Tree, w: World)
    ensures
        all_true(t.spine(true), w) == (t.eval(w) == Ok::<Value, int>(Value::Bool(true))),
    decreases t,
{
    if t.op == Op::And && t.kids.len() == 2 {
        lemma_spine_true(t.kids[0], w);
        lemma_spine_true(t.kids[1], w);
        lemma_all_true_append(t.kids[0].spine(true), t.kids[1].spine(true), w);
    } else if t.op == Tree::bool(true).op {
    } else {
        assert(t.spine(true) =~= seq![t]);
        assert(t.spine(true)[0] == t);
    }
}

/// A chain of `&&` is true exactly where its terms are.
proof fn lemma_and_chain_true(ts: Seq<Tree>, w: World)
    ensures
        (Tree::and_chain(ts).eval(w) == Ok::<Value, int>(Value::Bool(true))) == all_true(ts, w),
    decreases ts.len(),
{
    if ts.len() == 1 {
        assert(all_true(ts, w) == (ts[0].eval(w) == Ok::<Value, int>(Value::Bool(true))));
    } else if ts.len() > 1 {
        let rest = ts.drop_first();
        lemma_and_chain_true(rest, w);
        let t = Tree::and_chain(ts);
        assert(t.kids[0] == ts[0] && t.kids[1] == Tree::and_chain(rest));
        assert(ts =~= seq![ts[0]] + rest);
        lemma_all_true_append(seq![ts[0]], rest, w);
        assert(all_true(seq![ts[0]], w) == (ts[0].eval(w) == Ok::<Value, int>(
            Value::Bool(true),
        ))) by {
            assert(seq![ts[0]][0] == ts[0]);
        }
    }
}

impl PolicyView {
    /// A policy matches exactly where its conjuncts are true.
    proof fn lemma_conjuncts_true(self, w: World)
        ensures
            all_true(self.conjuncts(), w) == self.matches_on(w),
    {
        let p = self.principal.spine(true);
        let a = self.action.spine(true);
        let r = self.resource.spine(true);
        let c = match self.when {
            Some(t) => t.spine(true),
            None => seq![],
        };
        lemma_spine_true(self.principal, w);
        lemma_spine_true(self.action, w);
        lemma_spine_true(self.resource, w);
        if let Some(t) = self.when {
            lemma_spine_true(t, w);
        }
        lemma_all_true_append(p, a, w);
        lemma_all_true_append(p + a, r, w);
        lemma_all_true_append(p + a + r, c, w);
    }

    proof fn lemma_inserted(sorted: Seq<PolicyView>, p: PolicyView, q: PolicyView)
        ensures
            Self::inserted(sorted, p).contains(q) == (sorted.contains(q) || p == q),
        decreases sorted.len(),
    {
        if sorted.len() > 0 && crate::text::comes_before(p.id, sorted.last().id) {
            let front = sorted.drop_last();
            Self::lemma_inserted(front, p, q);
            let ins = Self::inserted(front, p);
            lemma_push_contains(ins, sorted.last(), q);
            lemma_push_contains(front, sorted.last(), q);
            assert(front.push(sorted.last()) =~= sorted);
        } else {
            lemma_push_contains(sorted, p, q);
        }
    }

    /// The forbids that are combined are those of the set.
    proof fn lemma_forbids(ps: Seq<PolicyView>, q: PolicyView)
        ensures
            Self::forbids(ps).contains(q) == (ps.contains(q) && q.effect == Effect::Forbid),
        decreases ps.len(),
    {
        if ps.len() > 0 {
            let front = ps.drop_last();
            Self::lemma_forbids(front, q);
            assert(front.push(ps.last()) =~= ps);
            lemma_push_contains(front, ps.last(), q);
            if ps.last().effect == Effect::Forbid {
                Self::lemma_inserted(Self::forbids(front), ps.last(), q);
            }
        }
    }

    proof fn lemma_inserted_ordered(sorted: Seq<PolicyView>, p: PolicyView)
        requires
            Self::ordered(sorted),
        ensures
            Self::ordered(Self::inserted(sorted, p)),
        decreases sorted.len(),
    {
        let n = sorted.len();
        if n > 0 && crate::text::comes_before(p.id, sorted.last().id) {
            let front = sorted.drop_last();
            let last = sorted.last();
            assert forall|i: int, j: int| 0 <= i < j < front.len() implies
                !crate::text::comes_before((#[trigger] front[j]).id, (#[trigger] front[i]).id) by {
                assert(sorted[i] == front[i] && sorted[j] == front[j]);
            }
            Self::lemma_inserted_ordered(front, p);
            let ins = Self::inserted(front, p);
            let all = ins.push(last);
            assert forall|i: int, j: int| 0 <= i < j < all.len() implies
                !crate::text::comes_before((#[trigger] all[j]).id, (#[trigger] all[i]).id) by {
                if j == all.len() - 1 {
                    assert(ins.contains(all[i])) by {
                        assert(ins[i] == all[i]);
                    }
                    Self::lemma_inserted(front, p, all[i]);
                    if p == all[i] {
                        crate::text::lemma_before_total(p.id, last.id);
                    } else {
                        let k = choose|k: int| 0 <= k < front.len() && front[k] == all[i];
                        assert(sorted[k] == all[i] && sorted[n - 1] == last);
                    }
                } else {
                    assert(ins[i] == all[i] && ins[j] == all[j]);
                }
            }
        } else {
            let all = sorted.push(p);
            assert forall|i: int, j: int| 0 <= i < j < all.len() implies
                !crate::text::comes_before((#[trigger] all[j]).id, (#[trigger] all[i]).id) by {
                if j == n {
                    if i == n - 1 {
                    } else if crate::text::comes_before(p.id, sorted[i].id) {
                        assert(!crate::text::comes_before(sorted[n - 1].id, sorted[i].id));
                        crate::text::lemma_before_total(sorted[i].id, sorted[n - 1].id);
                        if sorted[i].id == sorted[n - 1].id {
                        } else {
                            crate::text::lemma_before_trans(
                                p.id,
                                sorted[i].id,
                                sorted[n - 1].id,
                            );
                        }
                    }
                } else {
                    assert(sorted[i] == all[i] && sorted[j] == all[j]);
                }
            }
        }
    }

    /// The forbids are taken in the order of their ids.
    pub proof fn law_forbids_are_ordered(ps: Seq<PolicyView>)
        ensures
            Self::ordered(Self::forbids(ps)),
        decreases ps.len(),
    {
        if ps.len() > 0 {
            Self::law_forbids_are_ordered(ps.drop_last());
            if ps.last().effect == Effect::Forbid {
                Self::lemma_inserted_ordered(Self::forbids(ps.drop_last()), ps.last());
            }
        }
    }

    /// The witnesses of the forbids are all true exactly where none of the
    /// forbids matches.
    proof fn lemma_witnesses(ps: Seq<PolicyView>, w: World)
        requires
            Self::forbids_fit(ps, w),
        ensures
            all_true(Self::witnesses(Self::forbids(ps)), w) == !Self::any_matches(
                ps,
                Effect::Forbid,
                w,
            ),
    {
        let fs = Self::forbids(ps);
        let ws = Self::witnesses(fs);
        assert forall|i: int| 0 <= i < fs.len() implies ((#[trigger] ws[i]).eval(w) == Ok::<
            Value,
            int,
        >(Value::Bool(true))) == !fs[i].matches_on(w) by {
            assert(fs.contains(fs[i]));
            Self::lemma_forbids(ps, fs[i]);
            let k = choose|k: int| 0 <= k < ps.len() && ps[k] == fs[i];
            assert(ps[k].effect == Effect::Forbid);
            law_deny_witness(fs[i].conjuncts(), w);
            fs[i].lemma_conjuncts_true(w);
        }
        if Self::any_matches(ps, Effect::Forbid, w) {
            let k = choose|k: int|
                0 <= k < ps.len() && (#[trigger] ps[k]).effect == Effect::Forbid
                    && ps[k].matches_on(w);
            assert(ps.contains(ps[k]));
            Self::lemma_forbids(ps, ps[k]);
            let i = choose|i: int| 0 <= i < fs.len() && fs[i] == ps[k];
            assert(ws[i].eval(w) != Ok::<Value, int>(Value::Bool(true)));
        } else {
            assert forall|i: int| 0 <= i < ws.len() implies (#[trigger] ws[i]).eval(w) == Ok::<
                Value,
                int,
            >(Value::Bool(true)) by {
                assert(fs.contains(fs[i]));
                Self::lemma_forbids(ps, fs[i]);
                let k = choose|k: int| 0 <= k < ps.len() && ps[k] == fs[i];
                assert(ps[k].effect == Effect::Forbid);
            }
        }
    }

    /// The conjuncts of the forbids of `ps`, their scopes first, are booleans
    /// or err as far as they are reached.
    pub open spec fn forbids_fit(ps: Seq<PolicyView>, w: World) -> bool {
        forall|k: int|
            0 <= k < ps.len() && (#[trigger] ps[k]).effect == Effect::Forbid ==> fit(
                ps[k].conjuncts(),
                w,
            )
    }

    /// A permit with the witnesses added matches where it did and all the
    /// witnesses are true.
    proof fn lemma_with_witnesses(self, ws: Seq<Tree>, w: World)
        ensures
            self.with_witnesses(ws).matches_on(w) == (self.matches_on(w) && all_true(ws, w)),
    {
        let head = match self.when {
            Some(t) => seq![t],
            None => seq![],
        };
        lemma_and_chain_true(head + ws, w);
        lemma_all_true_append(head, ws, w);
        if let Some(t) = self.when {
            assert(head[0] == t);
            assert(all_true(head, w) == (t.eval(w) == Ok::<Value, int>(Value::Bool(true))));
        }
    }

    proof fn lemma_combined(ps: Seq<PolicyView>, ws: Seq<Tree>, w: World)
        ensures
            Self::any_matches(Self::combined(ps, ws), Effect::Permit, w) == (Self::any_matches(
                ps,
                Effect::Permit,
                w,
            ) && all_true(ws, w)),
            !Self::any_matches(Self::combined(ps, ws), Effect::Forbid, w),
        decreases ps.len(),
    {
        if ps.len() > 0 {
            let front = ps.drop_last();
            let p = ps.last();
            Self::lemma_combined(front, ws, w);
            assert(ps =~= front + seq![p]);
            super::policy::lemma_any_matches_append(front, seq![p], Effect::Permit, w);
            assert(Self::any_matches(seq![p], Effect::Permit, w) == (p.effect == Effect::Permit
                && p.matches_on(w))) by {
                assert(seq![p][0] == p);
            }
            if p.effect == Effect::Permit {
                let q = p.with_witnesses(ws);
                p.lemma_with_witnesses(ws, w);
                let c = Self::combined(front, ws);
                assert(c.push(q) =~= c + seq![q]);
                super::policy::lemma_any_matches_append(c, seq![q], Effect::Permit, w);
                super::policy::lemma_any_matches_append(c, seq![q], Effect::Forbid, w);
                assert(Self::any_matches(seq![q], Effect::Permit, w) == q.matches_on(w)) by {
                    assert(seq![q][0] == q);
                }
            }
        }
    }

    /// Combining the allow and deny policies of a set preserves its decision
    /// on every input on which the conjuncts of its forbids are booleans or
    /// err, as far as they are reached.
    pub proof fn law_combine_preserves_decision(ps: Seq<PolicyView>, w: World)
        requires
            Self::forbids_fit(ps, w),
        ensures
            Self::decision(
                Self::combined(ps, Self::witnesses(Self::forbids(ps))),
                w,
            ) == Self::decision(ps, w),
    {
        Self::lemma_witnesses(ps, w);
        Self::lemma_combined(ps, Self::witnesses(Self::forbids(ps)), w);
    }

    /// The allow-only cube policies of a set have its decision on every input
    /// on which the conjuncts of its forbids are booleans or err as far as they
    /// are reached, and the combined conditions are well typed wherever the
    /// scopes of their policies are true.
    pub proof fn law_allow_cubes_preserve_decision(
        policies: Seq<PolicyView>,
        ps: Seq<Policy>,
        es: Seq<Expr<()>>,
        max_split_nodes: usize,
        max_cubes: usize,
        w: World,
    )
        requires
            super::policy::policy_views(ps) == Self::combined(
                policies,
                Self::witnesses(Self::forbids(policies)),
            ),
            super::policy::splits_ok(ps, es, max_split_nodes, max_cubes),
            es.len() == ps.len(),
            Self::forbids_fit(policies, w),
            forall|i: int|
                0 <= i < ps.len() ==> (#[trigger] ps[i])@.condition().wf() && (ps[i]@.in_scope(w)
                    ==> ps[i]@.condition().typed(w)),
        ensures
            Self::decision(super::policy::all_splits(ps, es), w) == Self::decision(policies, w),
    {
        Self::law_combine_preserves_decision(policies, w);
        Self::law_split_policy_set_preserves_decision(ps, es, max_split_nodes, max_cubes, w);
    }
}

/// What a sequence with one more element contains.
proof fn lemma_push_contains(s: Seq<PolicyView>, p: PolicyView, q: PolicyView)
    ensures
        s.push(p).contains(q) == (s.contains(q) || p == q),
{
    if s.contains(q) {
        let i = choose|i: int| 0 <= i < s.len() && s[i] == q;
        assert(s.push(p)[i] == q);
    }
    if p == q {
        assert(s.push(p)[s.len() as int] == q);
    }
    if s.push(p).contains(q) {
        let i = choose|i: int| 0 <= i < s.push(p).len() && s.push(p)[i] == q;
        if i < s.len() {
            assert(s[i] == q);
        }
    }
}

} // verus!
