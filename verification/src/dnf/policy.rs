//! Splitting a policy into one policy per cube of the DNF of its condition.

use std::sync::Arc;

use vstd::prelude::*;

use crate::ast::{Data, Expr};
use crate::expr_util::MAX_NESTING;
use crate::model::{Value, World};
use crate::outcome::EvaluationOutcome;
use crate::policy::{Effect, Policy, PolicySet, PolicyView};
use crate::text::decimal;
use crate::tree::Tree;

use super::elim::normalize_unchecked;
use super::{bool_lit, Conj, Dnf, DnfError};

verus! {

/// The id of the `i`th policy that the policy `id` is split into.
pub open spec fn cube_id(id: Seq<char>, i: nat) -> Seq<char> {
    id + ".cube"@ + crate::text::digits(i)
}

impl PolicyView {
    /// The condition; no `when` clause means `true`.
    pub open spec fn condition(self) -> Tree {
        match self.when {
            Some(t) => t,
            None => Tree::bool(true),
        }
    }

    /// The policy as one expression: its scope and its condition.
    pub open spec fn whole(self) -> Tree {
        Tree::and(
            self.principal,
            Tree::and(self.action, Tree::and(self.resource, self.condition())),
        )
    }

    /// One policy per cube, with the scope, effect and annotations of this
    /// one.
    pub open spec fn per_cube(self, cubes: Seq<Conj<()>>) -> Seq<PolicyView> {
        Seq::new(
            cubes.len(),
            |i: int|
                PolicyView { id: cube_id(self.id, i as nat), when: Some(cubes[i].tree()), ..self },
        )
    }
}

/// The cubes of `e` that can be true.
pub open spec fn true_cubes_of(e: &Expr<()>) -> Seq<Conj<()>> {
    Dnf::of_spec(e, |a: Expr<()>| false)
}

impl Policy {
    /// No static copy of the policy can be made.
    pub open spec fn copy_fails(&self) -> bool {
        &&& !self.unlinked()
        &&& self.unfilled() || self@.condition().has_slot()
    }

    /// What the policy is split into, where `e` is its normalized condition.
    pub open spec fn split_result(
        &self,
        e: &Expr<()>,
        max_cubes: usize,
    ) -> Result<Seq<PolicyView>, DnfError> {
        let cubes = true_cubes_of(e);
        if !e.tree().fits(MAX_NESTING as nat) {
            Err(DnfError::RecursionLimit)
        } else if e.routes().len() > max_cubes {
            Err(DnfError::TooLarge { limit: max_cubes, what: "cubes" })
        } else if cubes.len() > 0 && (self.unfilled() || exists|i: int|
            0 <= i < cubes.len() && (#[trigger] cubes[i]).tree().has_slot()) {
            Err(DnfError::Unsupported("policy with an unfilled slot"))
        } else {
            Ok(self@.per_cube(cubes))
        }
    }

    /// `r` is what the policy is split into with the given budgets.
    pub open spec fn splits_into(
        &self,
        max_split_nodes: usize,
        max_cubes: usize,
        r: Result<Seq<PolicyView>, DnfError>,
    ) -> bool {
        match self@.condition().normalized(max_split_nodes) {
            Err(e) => r == Err::<Seq<PolicyView>, DnfError>(e),
            Ok(t) => exists|e: Expr<()>|
                e.tree() == t && r == #[trigger] self.split_result(&e, max_cubes),
        }
    }
}

/// What the policies of `ps` are.
pub open spec fn policy_views(ps: Seq<Policy>) -> Seq<PolicyView> {
    ps.map_values(|p: Policy| p@)
}

/// What the policies are, or the error.
pub open spec fn result_views(r: Result<Vec<Policy>, DnfError>) -> Result<
    Seq<PolicyView>,
    DnfError,
> {
    match r {
        Ok(ps) => Ok(policy_views(ps@)),
        Err(e) => Err(e),
    }
}

/// A static policy with `policy`'s scope (slots filled), annotations and
/// source location, and the given id, effect and condition: the shape of a
/// cube policy, a combined permit, and a linked policy's static copy.
pub(super) fn static_instance(
    policy: &Policy,
    id: String,
    effect: Effect,
    condition: Option<Expr<()>>,
) -> (r: Result<Policy, DnfError>)
    ensures
        match r {
            Ok(p) => {
                &&& !policy.unfilled()
                &&& !(condition matches Some(c) && c.tree().has_slot())
                &&& p.unlinked() && !p.unfilled()
                &&& p@ == (PolicyView {
                    id: id@,
                    effect,
                    when: match condition {
                        Some(c) => Some(c.tree()),
                        None => None,
                    },
                    ..policy@
                })
            },
            Err(e) => {
                &&& policy.unfilled() || (condition matches Some(c) && c.tree().has_slot())
                &&& e == DnfError::Unsupported("policy with an unfilled slot")
            },
        },
{
    match policy.instance(id, effect, condition) {
        Some(p) => Ok(p),
        None => Err(DnfError::Unsupported("policy with an unfilled slot")),
    }
}

/// The first of `ps`, from `i` on, that no static copy with a new id can be
/// made of, as an error.
pub open spec fn copies_error(ps: Seq<Policy>, i: int) -> Option<DnfError>
    decreases ps.len() - i,
{
    if i < 0 || i >= ps.len() {
        None
    } else if ps[i].copy_fails() {
        Some(DnfError::Unsupported("policy with an unfilled slot"))
    } else if exists|j: int| 0 <= j < i && (#[trigger] ps[j])@.id == ps[i]@.id {
        Some(DnfError::Unsupported("duplicate policy id"))
    } else {
        copies_error(ps, i + 1)
    }
}

/// The policies as they are to be validated (in strict mode), as the rewrites
/// of the normalization pipeline assume: each as the *static* policy it
/// splits into (a template-linked policy with its slots filled), not as its
/// template, which would be typed against every environment the template
/// could be linked in.
pub fn static_copies(policies: &Vec<Policy>) -> (r: Result<PolicySet, DnfError>)
    ensures
        match r {
            Ok(set) => {
                &&& copies_error(policies@, 0) is None
                &&& set@ == policy_views(policies@)
                &&& Policy::all_unlinked(set.items())
            },
            Err(e) => copies_error(policies@, 0) == Some(e),
        },
{
    let ghost all = policy_views(policies@);
    let mut set = PolicySet::new();
    let mut i: usize = 0;
    assert(all.take(0) =~= Seq::<PolicyView>::empty());
    while i < policies.len()
        invariant
            i <= policies@.len(),
            all == policy_views(policies@),
            set@ == all.take(i as int),
            Policy::all_unlinked(set.items()),
            copies_error(policies@, 0) == copies_error(policies@, i as int),
        decreases policies@.len() - i,
    {
        let policy = &policies[i];
        assert(all[i as int] == policy@);
        let copy = if policy.is_static() {
            policy.dup()
        } else {
            let when = match &policy.when {
                Some(e) => Some(e.dup()),
                None => None,
            };
            assert(!Tree::bool(true).has_slot());
            match static_instance(policy, policy.id.clone(), policy.effect, when) {
                Ok(p) => p,
                Err(e) => {
                    return Err(e);
                },
            }
        };
        assert(copy@ == policy@);
        let ghost before = set@;
        match set.add(copy) {
            Ok(_) => {
                assert(all.take(i + 1) =~= all.take(i as int).push(policy@));
                assert forall|j: int| 0 <= j < i implies (#[trigger] policies@[j])@.id
                    != policy@.id by {
                    assert(before[j] == policies@[j]@);
                }
            },
            Err(_) => {
                let ghost j = choose|j: int| 0 <= j < before.len() && (#[trigger] before[j]).id
                    == policy@.id;
                assert(policies@[j]@ == before[j]);
                return Err(DnfError::Unsupported("duplicate policy id"));
            },
        }
        i += 1;
    }
    assert(all.take(i as int) =~= all);
    Ok(set)
}

/// What validating the static copies of `ps` with `validator` comes to: why
/// they cannot be made, or the errors it finds in them.
pub open spec fn validates<V: Fn(&PolicySet) -> Vec<String>>(
    ps: Seq<Policy>,
    validator: &V,
    r: Result<(), DnfError>,
) -> bool {
    match copies_error(ps, 0) {
        Some(e) => r == Err::<(), DnfError>(e),
        None => exists|set: PolicySet, errs: Vec<String>| #[trigger]
            call_ensures(validator, (&set,), errs) && set@ == policy_views(ps)
                && Policy::all_unlinked(set.items()) && r == (if errs@.len() > 0 {
                Err::<(), DnfError>(DnfError::NotWellTyped { errs })
            } else {
                Ok(())
            }),
    }
}

/// Refuses policies whose static copies cannot be made, or in which
/// `validator` finds errors.
pub(super) fn validate<V: Fn(&PolicySet) -> Vec<String>>(
    policies: &Vec<Policy>,
    validator: &V,
) -> (r: Result<(), DnfError>)
    requires
        forall|s: PolicySet| call_requires(validator, (&s,)),
    ensures
        validates(policies@, validator, r),
{
    let set = static_copies(policies)?;
    let errs = validator(&set);
    assert(call_ensures(validator, (&set,), errs));
    if errs.len() > 0 {
        Err(DnfError::NotWellTyped { errs })
    } else {
        Ok(())
    }
}

/// Filtering by what all elements satisfy changes nothing.
proof fn lemma_filter_all<A>(s: Seq<A>, keep: spec_fn(A) -> bool)
    requires
        forall|i: int| 0 <= i < s.len() ==> keep(#[trigger] s[i]),
    ensures
        s.filter(keep) == s,
    decreases s.len(),
{
    reveal(Seq::filter);
    if s.len() > 0 {
        lemma_filter_all(s.drop_last(), keep);
        assert(keep(s[s.len() - 1]));
        assert(s.drop_last().push(s.last()) =~= s);
    }
}

/// Where no atom is said to error, only cubes that can be true are kept.
proof fn lemma_only_true_cubes(e: &Expr<()>)
    ensures
        forall|i: int| 0 <= i < true_cubes_of(e).len() ==> !(#[trigger] true_cubes_of(
            e,
        )[i]).never_true,
{
    assert forall|i: int| 0 <= i < true_cubes_of(e).len() implies !(#[trigger] true_cubes_of(
        e,
    )[i]).never_true by {
        if true_cubes_of(e)[i].never_true {
            let _ = Dnf::law_never_true_cubes_are_for_errors(e, |a: Expr<()>| false, i);
        }
    }
}

/// [`split_policy`] for a policy already validated.
pub(super) fn split_policy_unchecked(
    policy: &Policy,
    max_split_nodes: usize,
    max_cubes: usize,
) -> (r: Result<Vec<Policy>, DnfError>)
    ensures
        policy.splits_into(max_split_nodes, max_cubes, result_views(r)),
        r matches Ok(ps) ==> Policy::all_static(ps@),
{
    // No `when` clause means `true`.
    let no_when = Arc::new(bool_lit(true));
    let condition = match &policy.when {
        Some(e) => e,
        None => &no_when,
    };
    assert(condition.tree() == policy@.condition());
    let split = normalize_unchecked(&**condition, max_split_nodes)?;
    // `can_error` only decides which never-true cubes are kept, and no
    // never-true cube is kept here: erroring policies do not affect the
    // decision.
    let never = |a: &Expr<()>| -> (b: bool)
        ensures
            !b,
        { false };
    let ghost ce = |a: Expr<()>| false;
    assert(crate::expr_util::computes(&never, ce));
    let ghost result = policy.split_result(&split, max_cubes);
    let dnf = match Dnf::of(&split, &never, max_cubes) {
        Ok(d) => d,
        Err(e) => {
            assert(result == Err::<Seq<PolicyView>, DnfError>(e));
            return Err(e);
        },
    };
    let ghost cubes = true_cubes_of(&split);
    assert(dnf@ == cubes);
    let kept = dnf.true_cubes();
    proof {
        lemma_only_true_cubes(&split);
        lemma_filter_all(cubes, |c: Conj<()>| !c.never_true);
    }
    let ghost all = policy@.per_cube(cubes);
    let mut out: Vec<Policy> = Vec::new();
    let mut i: usize = 0;
    while i < kept.len()
        invariant
            i <= kept@.len(),
            kept@.map_values(|c: &super::Cube<()>| c@) == cubes,
            forall|j: int| 0 <= j < kept@.len() ==> (#[trigger] kept@[j]).wf(),
            cubes == true_cubes_of(&split),
            all == policy@.per_cube(cubes),
            split.tree().fits(MAX_NESTING as nat),
            split.routes().len() <= max_cubes,
            result == policy.split_result(&split, max_cubes),
            policy@.condition().normalized(max_split_nodes) == Ok::<Tree, DnfError>(split.tree()),
            i > 0 ==> !policy.unfilled(),
            forall|j: int| 0 <= j < i ==> !(#[trigger] cubes[j]).tree().has_slot(),
            policy_views(out@) =~= all.take(i as int),
            Policy::all_static(out@),
        decreases kept@.len() - i,
    {
        assert(cubes[i as int] == kept@[i as int]@);
        let e = kept[i].to_expr();
        let suffix = decimal(i);
        let id = policy.id.clone().concat(".cube").concat(suffix.as_str());
        assert(id@ == cube_id(policy@.id, i as nat));
        let ghost before = policy_views(out@);
        match static_instance(policy, id, policy.effect, Some(e)) {
            Ok(p) => {
                assert(p@ == all[i as int]);
                out.push(p);
                assert(policy_views(out@) =~= before.push(p@));
            },
            Err(err) => {
                assert(policy.unfilled() || cubes[i as int].tree().has_slot());
                assert(result == Err::<Seq<PolicyView>, DnfError>(err));
                return Err(err);
            },
        }
        i += 1;
    }
    assert(all.take(i as int) =~= all);
    assert(result == Ok::<Seq<PolicyView>, DnfError>(all));
    Ok(out)
}

/// Splits `policy` into one static policy per cube of the DNF of its
/// condition, preserving its set of matching inputs exactly.
///
/// The `when` condition is normalized and converted, and every cube that can
/// be true becomes its own policy with the same effect, scope and
/// annotations, the id `{id}.cube{i}`, and the cube as its `when` condition.
/// The scope stays in place: the condition is `scope && when`, which is `true`
/// exactly when both parts are. Template-linked policies split into
/// equivalent static policies, because their scope constraints carry the
/// filled slot values.
///
/// On any input, at most one of the returned policies matches, and one of
/// them matches exactly when `policy` matches. Never-true cubes are dropped: a
/// policy whose condition errors or is false is ignored either way.
///
/// The policy's static copy ([`static_copies`]) is validated first, as the
/// rewrites assume a well-typed input: `validator` gives the errors that
/// validation in strict mode finds in a set.
///
/// A policy whose condition can never be true (`when { false }`) splits into
/// no policies at all. Exceeding a budget fails with [`DnfError::TooLarge`].
pub fn split_policy<V: Fn(&PolicySet) -> Vec<String>>(
    policy: &Policy,
    validator: &V,
    max_split_nodes: usize,
    max_cubes: usize,
) -> (r: Result<Vec<Policy>, DnfError>)
    requires
        forall|s: PolicySet| call_requires(validator, (&s,)),
    ensures
        exists|v: Result<(), DnfError>| #[trigger]
            validates(seq![*policy], validator, v) && match v {
                Err(e) => r == Err::<Vec<Policy>, DnfError>(e),
                Ok(_) => policy.splits_into(max_split_nodes, max_cubes, result_views(r)),
            },
        r matches Ok(ps) ==> Policy::all_static(ps@),
{
    let mut one: Vec<Policy> = Vec::new();
    one.push(policy.dup());
    assert(one@ =~= seq![*policy]);
    let v = validate(&one, validator);
    assert(validates(seq![*policy], validator, v));
    match v {
        Ok(_) => split_policy_unchecked(policy, max_split_nodes, max_cubes),
        Err(e) => Err(e),
    }
}

/// The decomposition of a cube's id is unique.
pub proof fn law_cube_ids_are_injective(a: Seq<char>, i: nat, b: Seq<char>, j: nat)
    requires
        cube_id(a, i) == cube_id(b, j),
    ensures
        a == b,
        i == j,
{
    reveal_strlit(".cube");
    let x = cube_id(a, i);
    let da = crate::text::digits(i);
    let db = crate::text::digits(j);
    lemma_cube_ids_len(a, i, b, j);
    lemma_cube_ids_len(b, j, a, i);
    assert(a =~= x.take(a.len() as int));
    assert(b =~= x.take(b.len() as int));
    assert(da =~= x.skip(a.len() as int + 5));
    assert(db =~= x.skip(b.len() as int + 5));
    crate::text::lemma_digits_injective(i, j);
}

/// A dot cannot stand among the digits of a longer suffix.
proof fn lemma_cube_ids_len(a: Seq<char>, i: nat, b: Seq<char>, j: nat)
    requires
        cube_id(a, i) == cube_id(b, j),
    ensures
        a.len() >= b.len(),
{
    if a.len() < b.len() {
        reveal_strlit(".cube");
        let x = cube_id(a, i);
        let p = b.len() as int;
        assert(".cube"@.len() == 5);
        assert(x.len() == a.len() + 5 + crate::text::digits(i).len());
        assert(cube_id(b, j).len() == b.len() + 5 + crate::text::digits(j).len());
        assert(x[p] == '.') by {
            assert(cube_id(b, j)[p] == ".cube"@[0]);
        }
        if p < a.len() + 5 {
            assert(x[p] == ".cube"@[p - a.len()]);
            assert(".cube"@[p - a.len()] != '.');
        } else {
            let k = p - a.len() - 5;
            let d = crate::text::digits(i);
            assert(x[p] == d[k]);
            crate::text::lemma_digits_chars(i, k);
        }
    }
}

/// The policies of all the splits, in order.
pub open spec fn all_splits(ps: Seq<Policy>, es: Seq<Expr<()>>) -> Seq<PolicyView>
    decreases ps.len(),
{
    if ps.len() == 0 || es.len() == 0 {
        seq![]
    } else {
        all_splits(ps.drop_last(), es.drop_last()) + ps.last()@.per_cube(
            true_cubes_of(&es.last()),
        )
    }
}

/// Each of the first policies of `ps` is split, with the normalized condition
/// that `es` holds for it.
pub open spec fn splits_ok(
    ps: Seq<Policy>,
    es: Seq<Expr<()>>,
    max_split_nodes: usize,
    max_cubes: usize,
) -> bool {
    &&& es.len() <= ps.len()
    &&& forall|i: int|
        0 <= i < es.len() ==> {
            &&& ps[i]@.condition().normalized(max_split_nodes) == Ok::<Tree, DnfError>(
                (#[trigger] es[i]).tree(),
            )
            &&& ps[i].split_result(&es[i], max_cubes) is Ok
        }
}

/// Some policy of `ps` cannot be split, which is the error `err`, and those
/// before it can.
pub open spec fn split_fails(
    ps: Seq<Policy>,
    max_split_nodes: usize,
    max_cubes: usize,
    err: DnfError,
) -> bool {
    exists|es: Seq<Expr<()>>|
        {
            &&& #[trigger] splits_ok(ps, es, max_split_nodes, max_cubes)
            &&& es.len() < ps.len()
            &&& ps[es.len() as int].splits_into(
                max_split_nodes,
                max_cubes,
                Err::<Seq<PolicyView>, DnfError>(err),
            )
        }
}

/// `id` is that of a policy that one of the first `n` of `ps` is split into.
spec fn named_after(id: Seq<char>, ps: Seq<Policy>, n: int) -> bool {
    exists|a: int, b: nat| 0 <= a < n && id == #[trigger] cube_id(ps[a]@.id, b)
}

/// [`split_policy`] applied to every policy of the set: the returned set
/// contains one static policy per cube of each input policy and produces the
/// same authorization decision as `policies` on every input. The policies'
/// static copies are validated first. The budgets apply to each policy afresh,
/// so a set of `n` policies may grow to `n * max_cubes` policies.
pub fn split_policy_set<V: Fn(&PolicySet) -> Vec<String>>(
    policies: &PolicySet,
    validator: &V,
    max_split_nodes: usize,
    max_cubes: usize,
) -> (r: Result<PolicySet, DnfError>)
    requires
        forall|s: PolicySet| call_requires(validator, (&s,)),
    ensures
        exists|v: Result<(), DnfError>| #[trigger]
            validates(policies.items(), validator, v) && match v {
                Err(e) => r == Err::<PolicySet, DnfError>(e),
                Ok(_) => set_splits(policies.items(), max_split_nodes, max_cubes, r),
            },
{
    let v = validate(policies.policies(), validator);
    assert(validates(policies.items(), validator, v));
    match v {
        Ok(_) => split_set_unchecked(policies, max_split_nodes, max_cubes),
        Err(e) => Err(e),
    }
}

/// What splitting every one of `ps` comes to: the policies that each is split
/// into, one after the other, or the first failure.
pub open spec fn set_splits(
    ps: Seq<Policy>,
    max_split_nodes: usize,
    max_cubes: usize,
    r: Result<PolicySet, DnfError>,
) -> bool {
    match r {
        Ok(out) => exists|es: Seq<Expr<()>>|
            {
                &&& #[trigger] splits_ok(ps, es, max_split_nodes, max_cubes)
                &&& es.len() == ps.len()
                &&& out@ == all_splits(ps, es)
                &&& Policy::all_static(out.items())
            },
        Err(e) => split_fails(ps, max_split_nodes, max_cubes, e),
    }
}

/// [`split_policy_set`] for policies already validated.
fn split_set_unchecked(policies: &PolicySet, max_split_nodes: usize, max_cubes: usize) -> (r: Result<
    PolicySet,
    DnfError,
>)
    requires
        copies_error(policies.items(), 0) is None,
    ensures
        set_splits(policies.items(), max_split_nodes, max_cubes, r),
{
    let ps = policies.policies();
    assert(policy_views(ps@) == policies@);
    let mut out = PolicySet::new();
    let ghost mut es: Seq<Expr<()>> = seq![];
    let mut i: usize = 0;
    assert(ps@.take(0) =~= seq![]);
    while i < ps.len()
        invariant
            i <= ps@.len(),
            ps@ == policies.items(),
            policy_views(ps@) == policies@,
            PolicyView::distinct_ids(policies@),
            copies_error(ps@, 0) is None,
            es.len() == i,
            splits_ok(ps@, es, max_split_nodes, max_cubes),
            out@ == all_splits(ps@.take(i as int), es),
            Policy::all_static(out.items()),
            forall|k: int|
                0 <= k < out@.len() ==> named_after((#[trigger] out@[k]).id, ps@, i as int),
        decreases ps@.len() - i,
    {
        let splits = match split_policy_unchecked(&ps[i], max_split_nodes, max_cubes) {
            Ok(s) => s,
            Err(e) => {
                assert(ps@[es.len() as int].splits_into(
                    max_split_nodes,
                    max_cubes,
                    Err::<Seq<PolicyView>, DnfError>(e),
                ));
                return Err(e);
            },
        };
        let ghost p = ps@[i as int];
        let ghost t = p@.condition().normalized(max_split_nodes)->Ok_0;
        let ghost e = choose|e: Expr<()>|
            e.tree() == t && Ok::<Seq<PolicyView>, DnfError>(policy_views(splits@))
                == #[trigger] p.split_result(&e, max_cubes);
        let ghost before = out@;
        let ghost part = p@.per_cube(true_cubes_of(&e));
        assert(policy_views(splits@) == part);
        let mut splits = splits;
        let n = splits.len();
        let mut j: usize = 0;
        assert(before + part.take(0) =~= before);
        while j < n
            invariant
                j <= n,
                n == part.len(),
                i < ps@.len(),
                p == ps@[i as int],
                policy_views(ps@) == policies@,
                PolicyView::distinct_ids(policies@),
                part == p@.per_cube(true_cubes_of(&e)),
                policy_views(splits@) == part.skip(j as int),
                out@ == before + part.take(j as int),
                Policy::all_static(out.items()),
                Policy::all_static(splits@),
                forall|k: int|
                    0 <= k < before.len() ==> named_after(
                        (#[trigger] before[k]).id,
                        ps@,
                        i as int,
                    ),
            decreases n - j,
        {
            let ghost rest = splits@;
            assert(policy_views(rest).len() == rest.len());
            let split = splits.remove(0);
            assert(split@ == part[j as int]) by {
                assert(policy_views(rest)[0] == rest[0]@);
            }
            assert(policy_views(splits@) =~= part.skip(j + 1)) by {
                assert(splits@ =~= rest.drop_first());
                assert(policy_views(rest).drop_first() =~= policy_views(rest.drop_first()));
            }
            let ghost so_far = out@;
            let added = out.add(split);
            proof {
                if added is Err {
                    let k = choose|k: int| 0 <= k < so_far.len() && (#[trigger] so_far[k]).id
                        == split@.id;
                    if k < before.len() {
                        assert(so_far[k] == before[k]);
                        assert(named_after(before[k].id, ps@, i as int));
                        let (a, b) = choose|a: int, b: nat|
                            0 <= a < i && before[k].id == #[trigger] cube_id(ps@[a]@.id, b);
                        law_cube_ids_are_injective(ps@[a]@.id, b, p@.id, j as nat);
                        assert(policies@[a] == ps@[a]@);
                        assert(policies@[i as int] == p@);
                    } else {
                        let m = k - before.len();
                        assert(so_far[k] == part.take(j as int)[m]);
                        law_cube_ids_are_injective(p@.id, m as nat, p@.id, j as nat);
                    }
                    assert(false);
                }
            }
            if added.is_err() {
                return Err(DnfError::Unsupported("duplicate split policy id"));
            }
            assert(out@ =~= before + part.take(j + 1));
            j += 1;
        }
        assert(part.take(j as int) =~= part);
        proof {
            assert(ps@.take(i + 1).drop_last() =~= ps@.take(i as int));
            assert(es.push(e).drop_last() =~= es);
            assert forall|k: int| 0 <= k < out@.len() implies named_after(
                (#[trigger] out@[k]).id,
                ps@,
                i + 1,
            ) by {
                if k < before.len() {
                    assert(out@[k] == before[k]);
                    assert(named_after(before[k].id, ps@, i as int));
                    let (a, b) = choose|a: int, b: nat|
                        0 <= a < i && before[k].id == #[trigger] cube_id(ps@[a]@.id, b);
                    assert(out@[k].id == cube_id(ps@[a]@.id, b));
                } else {
                    let m = k - before.len();
                    assert(out@[k] == part[m]);
                    assert(out@[k].id == cube_id(ps@[i as int]@.id, m as nat));
                }
            }
            let old_es = es;
            es = es.push(e);
            assert forall|k: int| 0 <= k < es.len() implies {
                &&& ps@[k]@.condition().normalized(max_split_nodes) == Ok::<Tree, DnfError>(
                    (#[trigger] es[k]).tree(),
                )
                &&& ps@[k].split_result(&es[k], max_cubes) is Ok
            } by {
                if k < old_es.len() {
                    assert(es[k] == old_es[k]);
                }
            }
        }
        i += 1;
    }
    assert(ps@.take(i as int) =~= ps@);
    Ok(out)
}

/// A boolean is true exactly where its outcome is.
proof fn lemma_true_outcome(t: Tree, w: World)
    ensures
        (t.eval(w) == Ok::<Value, int>(Value::Bool(true))) == (t.outcome(w)
            == EvaluationOutcome::True),
{
}

impl PolicyView {
    /// The policies that a policy is split into match exactly where it does,
    /// and never two of them at once.
    proof fn lemma_per_cube_matches(self, e: &Expr<()>, w: World)
        requires
            e.tree().eval(w) == self.condition().eval(w),
        ensures
            ({
                let ps = self.per_cube(true_cubes_of(e));
                &&& (exists|i: int| 0 <= i < ps.len() && (#[trigger] ps[i]).matches_on(w))
                    == self.matches_on(w)
                &&& forall|i: int, j: int|
                    0 <= i < ps.len() && 0 <= j < ps.len() && (#[trigger] ps[i]).matches_on(w) && (
                    #[trigger] ps[j]).matches_on(w) ==> i == j
            }),
    {
        let ce = |a: Expr<()>| false;
        let g = |t: Tree| t.outcome(w);
        let cubes = true_cubes_of(e);
        let ps = self.per_cube(cubes);
        super::laws::lemma_eval_respects_structure(w);
        super::laws::lemma_cubes_true(e, ce, g);
        lemma_true_outcome(e.tree(), w);
        assert(Tree::bool(true).eval(w) == Ok::<Value, int>(Value::Bool(true)));
        assert forall|i: int| 0 <= i < cubes.len() implies ((
        #[trigger] cubes[i]).tree().eval(w) == Ok::<Value, int>(Value::Bool(true))) == (
        cubes[i].outcome(g) == EvaluationOutcome::True) by {
            super::laws::lemma_cube_tree(cubes[i], g);
            lemma_true_outcome(cubes[i].tree(), w);
        }
        if self.matches_on(w) {
            let i = choose|i: int|
                0 <= i < cubes.len() && (#[trigger] cubes[i]).outcome(g)
                    == EvaluationOutcome::True;
            assert(ps[i].matches_on(w));
        }
        if exists|i: int| 0 <= i < ps.len() && (#[trigger] ps[i]).matches_on(w) {
            let i = choose|i: int| 0 <= i < ps.len() && (#[trigger] ps[i]).matches_on(w);
            assert(cubes[i].outcome(g) == EvaluationOutcome::True);
        }
        assert forall|i: int, j: int|
            0 <= i < ps.len() && 0 <= j < ps.len() && (#[trigger] ps[i]).matches_on(w) && (
            #[trigger] ps[j]).matches_on(w) implies i == j by {
            lemma_true_outcome(cubes[i].tree(), w);
            lemma_true_outcome(cubes[j].tree(), w);
            Dnf::lemma_at_most_one_true(e, ce, g, i, j);
        }
    }

    /// On every input on which the condition of a policy is well typed if its
    /// scope is true, at most one of the policies it is split into matches, and
    /// one of them matches exactly when the policy does.
    pub proof fn law_split_policy_preserves_matching(
        policy: &Policy,
        max_split_nodes: usize,
        max_cubes: usize,
        ps: Seq<PolicyView>,
        w: World,
    )
        requires
            policy.splits_into(
                max_split_nodes,
                max_cubes,
                Ok::<Seq<PolicyView>, DnfError>(ps),
            ),
            policy@.condition().wf(),
            policy@.in_scope(w) ==> policy@.condition().typed(w),
        ensures
            (exists|i: int| 0 <= i < ps.len() && (#[trigger] ps[i]).matches_on(w))
                == policy@.matches_on(w),
            forall|i: int, j: int|
                0 <= i < ps.len() && 0 <= j < ps.len() && (#[trigger] ps[i]).matches_on(w) && (
                #[trigger] ps[j]).matches_on(w) ==> i == j,
    {
        let t = policy@.condition().normalized(max_split_nodes)->Ok_0;
        let e = choose|e: Expr<()>|
            e.tree() == t && Ok::<Seq<PolicyView>, DnfError>(ps) == #[trigger] policy.split_result(
                &e,
                max_cubes,
            );
        policy.lemma_split_matches(&e, max_split_nodes, w);
    }

    /// On every input on which the condition of a policy is well typed if its
    /// scope is true, and on which the policy (its scope and its condition)
    /// does not err, none of the policies it is split into does.
    pub proof fn law_split_policy_adds_no_error(
        policy: &Policy,
        max_split_nodes: usize,
        max_cubes: usize,
        ps: Seq<PolicyView>,
        w: World,
        i: int,
    )
        requires
            policy.splits_into(
                max_split_nodes,
                max_cubes,
                Ok::<Seq<PolicyView>, DnfError>(ps),
            ),
            policy@.condition().wf(),
            policy@.in_scope(w) ==> policy@.condition().typed(w),
            policy@.whole().outcome(w) != EvaluationOutcome::Error,
            0 <= i < ps.len(),
        ensures
            ps[i].whole().outcome(w) != EvaluationOutcome::Error,
    {
        let t = policy@.condition().normalized(max_split_nodes)->Ok_0;
        let e = choose|e: Expr<()>|
            e.tree() == t && Ok::<Seq<PolicyView>, DnfError>(ps) == #[trigger] policy.split_result(
                &e,
                max_cubes,
            );
        policy@.lemma_whole_outcome(w);
        ps[i].lemma_whole_outcome(w);
        if policy@.in_scope(w) {
            let g = |t: Tree| t.outcome(w);
            let cubes = true_cubes_of(&e);
            policy.lemma_condition_normalized(max_split_nodes, w);
            super::laws::lemma_eval_respects_structure(w);
            super::laws::lemma_cubes_true(&e, |a: Expr<()>| false, g);
            super::laws::lemma_cube_tree(cubes[i], g);
            if cubes[i].outcome(g) == EvaluationOutcome::Error {
                assert(super::laws::some_cube(cubes, g, EvaluationOutcome::Error));
            }
        }
    }

    /// The outcome of a policy: that of its scope where it is not true, and of
    /// its condition where it is.
    proof fn lemma_whole_outcome(self, w: World)
        ensures
            self.in_scope(w) ==> self.whole().outcome(w) == self.condition().outcome(w),
            !self.in_scope(w) ==> self.whole().outcome(w) == match self.principal.outcome(w) {
                EvaluationOutcome::True => match self.action.outcome(w) {
                    EvaluationOutcome::True => self.resource.outcome(w),
                    o => o,
                },
                o => o,
            },
    {
        let r = Tree::and(self.resource, self.condition());
        let a = Tree::and(self.action, r);
        Tree::lemma_and_outcome(self.resource, self.condition(), w);
        Tree::lemma_and_outcome(self.action, r, w);
        Tree::lemma_and_outcome(self.principal, a, w);
        lemma_true_outcome(self.principal, w);
        lemma_true_outcome(self.action, w);
        lemma_true_outcome(self.resource, w);
    }

    /// Splitting the policies of a set preserves its decision on every input
    /// on which their conditions are well typed wherever their scopes are true.
    pub proof fn law_split_policy_set_preserves_decision(
        ps: Seq<Policy>,
        es: Seq<Expr<()>>,
        max_split_nodes: usize,
        max_cubes: usize,
        w: World,
    )
        requires
            splits_ok(ps, es, max_split_nodes, max_cubes),
            es.len() == ps.len(),
            forall|i: int|
                0 <= i < ps.len() ==> (#[trigger] ps[i])@.condition().wf() && (ps[i]@.in_scope(w)
                    ==> ps[i]@.condition().typed(w)),
        ensures
            PolicyView::decision(all_splits(ps, es), w) == PolicyView::decision(
                policy_views(ps),
                w,
            ),
    {
        lemma_any_split_matches(ps, es, max_split_nodes, max_cubes, Effect::Permit, w);
        lemma_any_split_matches(ps, es, max_split_nodes, max_cubes, Effect::Forbid, w);
    }
}

impl Policy {
    /// The policies that a policy is split into match exactly where it does,
    /// and never two of them at once; nowhere, where its scope is not true.
    proof fn lemma_split_matches(&self, e: &Expr<()>, max_split_nodes: usize, w: World)
        requires
            self@.condition().normalized(max_split_nodes) == Ok::<Tree, DnfError>(e.tree()),
            self@.condition().wf(),
            self@.in_scope(w) ==> self@.condition().typed(w),
        ensures
            ({
                let ps = self@.per_cube(true_cubes_of(e));
                &&& (exists|i: int| 0 <= i < ps.len() && (#[trigger] ps[i]).matches_on(w))
                    == self@.matches_on(w)
                &&& forall|i: int, j: int|
                    0 <= i < ps.len() && 0 <= j < ps.len() && (#[trigger] ps[i]).matches_on(w) && (
                    #[trigger] ps[j]).matches_on(w) ==> i == j
            }),
    {
        if self@.in_scope(w) {
            self.lemma_condition_normalized(max_split_nodes, w);
            self@.lemma_per_cube_matches(e, w);
        }
    }
}

impl Policy {
    proof fn lemma_condition_normalized(&self, max_split_nodes: usize, w: World)
        requires
            self@.condition().wf(),
            self@.condition().typed(w),
        ensures
            self@.condition().normalized(max_split_nodes) matches Ok(t) ==> t.eval(w)
                == self@.condition().eval(w),
    {
        match &self.when {
            Some(e) => {
                super::elim_laws::law_normalization_preserves_evaluation(
                    &**e,
                    max_split_nodes,
                    w,
                );
            },
            None => {
                let t = Tree::bool(true);
                assert(t.wf());
                super::elim_laws::lemma_normalized_eval(t, max_split_nodes, w);
            },
        }
    }
}

/// A policy with an effect matches after splitting exactly where one did
/// before.
proof fn lemma_any_split_matches(
    ps: Seq<Policy>,
    es: Seq<Expr<()>>,
    max_split_nodes: usize,
    max_cubes: usize,
    effect: Effect,
    w: World,
)
    requires
        splits_ok(ps, es, max_split_nodes, max_cubes),
        es.len() == ps.len(),
        forall|i: int|
            0 <= i < ps.len() ==> (#[trigger] ps[i])@.condition().wf() && (ps[i]@.in_scope(w)
                ==> ps[i]@.condition().typed(w)),
    ensures
        PolicyView::any_matches(all_splits(ps, es), effect, w) == PolicyView::any_matches(
            policy_views(ps),
            effect,
            w,
        ),
    decreases ps.len(),
{
    if ps.len() > 0 {
        let p = ps.last();
        let e = es.last();
        let front = ps.drop_last();
        let rest = es.drop_last();
        assert forall|i: int| 0 <= i < rest.len() implies {
            &&& front[i]@.condition().normalized(max_split_nodes) == Ok::<Tree, DnfError>(
                (#[trigger] rest[i]).tree(),
            )
            &&& front[i].split_result(&rest[i], max_cubes) is Ok
        } by {
            assert(es[i] == rest[i]);
        }
        assert forall|i: int| 0 <= i < front.len() implies (
        #[trigger] front[i])@.condition().wf() && (front[i]@.in_scope(w)
            ==> front[i]@.condition().typed(w)) by {
            assert(front[i] == ps[i]);
        }
        lemma_any_split_matches(front, rest, max_split_nodes, max_cubes, effect, w);
        assert(es[es.len() - 1] == e);
        assert(ps[ps.len() - 1] == p);
        p.lemma_split_matches(&e, max_split_nodes, w);
        let part = p@.per_cube(true_cubes_of(&e));
        lemma_any_matches_append(all_splits(front, rest), part, effect, w);
        assert(policy_views(ps) =~= policy_views(front) + seq![p@]);
        lemma_any_matches_append(policy_views(front), seq![p@], effect, w);
        assert(PolicyView::any_matches(part, effect, w) == PolicyView::any_matches(
            seq![p@],
            effect,
            w,
        )) by {
            if PolicyView::any_matches(part, effect, w) {
                let i = choose|i: int|
                    0 <= i < part.len() && (#[trigger] part[i]).effect == effect
                        && part[i].matches_on(w);
                assert(seq![p@][0].effect == effect);
            }
            if PolicyView::any_matches(seq![p@], effect, w) {
                let i = choose|i: int| 0 <= i < part.len() && (#[trigger] part[i]).matches_on(w);
                assert(part[i].effect == effect);
            }
        }
    }
}

/// A policy of two sets together matches where one of either does.
pub proof fn lemma_any_matches_append(
    a: Seq<PolicyView>,
    b: Seq<PolicyView>,
    effect: Effect,
    w: World,
)
    ensures
        PolicyView::any_matches(a + b, effect, w) == (PolicyView::any_matches(a, effect, w)
            || PolicyView::any_matches(b, effect, w)),
{
    if PolicyView::any_matches(a, effect, w) {
        let i = choose|i: int|
            0 <= i < a.len() && (#[trigger] a[i]).effect == effect && a[i].matches_on(w);
        assert((a + b)[i] == a[i]);
    }
    if PolicyView::any_matches(b, effect, w) {
        let i = choose|i: int|
            0 <= i < b.len() && (#[trigger] b[i]).effect == effect && b[i].matches_on(w);
        assert((a + b)[i + a.len()] == b[i]);
    }
    if PolicyView::any_matches(a + b, effect, w) {
        let i = choose|i: int|
            0 <= i < (a + b).len() && (#[trigger] (a + b)[i]).effect == effect && (a
                + b)[i].matches_on(w);
        if i < a.len() {
            assert(a[i] == (a + b)[i]);
        } else {
            assert(b[i - a.len()] == (a + b)[i]);
        }
    }
}

} // verus!
