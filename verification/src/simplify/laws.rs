//! What the findings say, in terms of what was observed of the nodes of a
//! condition and of where they are.

use vstd::prelude::*;

use crate::ast::{Expr, ExprKind, Loc};
use crate::evaluator::run::{NodeOutcome, Obs};
use crate::outcome::EvaluationOutcome;
use crate::simplify::{
    are_findings, by_span, conjunctions_of, determined, reported, settled, tables, views,
    Conjunction, Finding, FindingKind, Observed, Span,
};

verus! {

/// The span is the source range. A range that ends before it starts is empty.
pub open spec fn is_range(loc: Loc, span: Span) -> bool {
    &&& span.offset == loc.start
    &&& loc.start <= loc.end ==> span.offset + span.length == loc.end
    &&& loc.start > loc.end ==> span.length == 0
}

/// The location is there, and the span is it.
pub open spec fn is_at(loc: Option<Loc>, span: Span) -> bool {
    loc matches Some(l) && is_range(l, span)
}

/// The inner span lies within the outer one.
pub open spec fn lies_in(inner: Span, outer: Span) -> bool {
    outer.offset <= inner.offset && inner.offset + inner.length <= outer.offset + outer.length
}

/// What an environment observed of a condition, in evaluation order, and where
/// the policy is.
pub struct Sighting {
    pub observed: Seq<Obs>,
    pub policy: Option<Loc>,
}

impl Sighting {
    /// Where the `k`th node is. The last one is the whole condition: where it
    /// is a literal or has no location, it is where the policy is.
    pub open spec fn place(self, k: int) -> Option<Loc> {
        let o = self.observed[k];
        if k == self.observed.len() - 1 && (o.literal || o.loc is None) {
            self.policy
        } else {
            o.loc
        }
    }

    /// The `k`th node is the one that counts for the span: the last one there.
    pub open spec fn counts(self, span: Span, k: int) -> bool {
        &&& 0 <= k < self.observed.len()
        &&& is_at(self.place(k), span)
        &&& forall|j: int| k < j < self.observed.len() ==> !is_at(#[trigger] self.place(j), span)
    }

    /// Some node at the span was evaluated.
    pub open spec fn evaluates(self, span: Span) -> bool {
        exists|k: int| 0 <= k < self.observed.len() && is_at(#[trigger] self.place(k), span)
    }

    /// The node at the span can have the outcome.
    pub open spec fn can_be(self, span: Span, o: EvaluationOutcome) -> bool {
        exists|k: int| #[trigger] self.counts(span, k) && self.observed[k].outcomes.contains(o)
    }

    /// The node at the span is a literal the user wrote.
    pub open spec fn is_literal(self, span: Span) -> bool {
        exists|k: int| #[trigger]
            self.counts(span, k) && self.observed[k].literal && k < self.observed.len() - 1
    }

    /// The node at the span is a guard that is kept.
    pub open spec fn is_kept(self, span: Span) -> bool {
        exists|k: int| #[trigger] self.counts(span, k) && self.observed[k].kept
    }

    /// The node at the span was evaluated, and is never true.
    pub open spec fn is_false(self, span: Span) -> bool {
        self.evaluates(span) && !self.can_be(span, EvaluationOutcome::True)
    }

    /// `left && right`, at `span`, stops at its left operand: the whole is never
    /// true, and neither is the left operand if it was evaluated; if it was not
    /// the right one was not either.
    pub open spec fn stops(self, span: Span, left: Option<Span>, right: Span) -> bool {
        &&& self.is_false(span)
        &&& if left is Some && self.evaluates(left->Some_0) {
            !self.can_be(left->Some_0, EvaluationOutcome::True)
        } else {
            !self.evaluates(right)
        }
    }
}

/// The node at the end of a path through operands of `&&`: `true` for the left
/// one.
pub open spec fn conjunct<T>(e: Expr<T>, path: Seq<bool>) -> Option<Expr<T>>
    decreases path.len(),
{
    if path.len() == 0 {
        Some(e)
    } else {
        match e.kind {
            ExprKind::And { left, right } => conjunct(
                if path[0] {
                    *left
                } else {
                    *right
                },
                path.drop_first(),
            ),
            _ => None,
        }
    }
}

/// `e` is `left && right`, and the spans are where it and its operands are; the
/// left operand may have no location.
pub open spec fn is_and_at<T>(e: Expr<T>, span: Span, left: Option<Span>, right: Span) -> bool {
    e.kind matches ExprKind::And { left: l, right: r } && {
        &&& is_at(e.loc, span)
        &&& is_at(r.loc, right)
        &&& match left {
            Some(s) => is_at(l.loc, s),
            None => l.loc is None,
        }
    }
}

/// `left && right` with these spans is reached from the root through `&&`
/// alone.
pub open spec fn has_conjunction<T>(e: Expr<T>, span: Span, left: Option<Span>, right: Span) -> bool {
    exists|path: Seq<bool>|
        (#[trigger] conjunct(e, path)) is Some && is_and_at(
            conjunct(e, path)->Some_0,
            span,
            left,
            right,
        )
}

/// The environment does not get to the span: it lies in the right operand of a
/// conjunction that stops before it.
pub open spec fn not_reached<T>(at: Sighting, e: Expr<T>, span: Span) -> bool {
    exists|whole: Span, left: Option<Span>, right: Span|
        #![trigger at.stops(whole, left, right)]
        has_conjunction(e, whole, left, right) && at.stops(whole, left, right) && lies_in(
            span,
            right,
        )
}

/// What each environment observed.
pub open spec fn sightings(observed: Seq<Vec<NodeOutcome>>, policy: Option<Loc>) -> Seq<Sighting> {
    observed.map_values(|o: Vec<NodeOutcome>| Sighting { observed: views(o@), policy })
}

/// A finding may speak of the span: some environment evaluates it, each that
/// does not never gets to it, and it is no literal the user wrote.
pub open spec fn may_speak<T>(all: Seq<Sighting>, e: Expr<T>, span: Span) -> bool {
    &&& exists|i: int| 0 <= i < all.len() && (#[trigger] all[i]).evaluates(span)
    &&& forall|i: int|
        0 <= i < all.len() ==> if (#[trigger] all[i]).evaluates(span) {
            !all[i].is_literal(span)
        } else {
            not_reached(all[i], e, span)
        }
}

/// In no environment can the span be true.
pub open spec fn cannot_be_true(all: Seq<Sighting>, span: Span) -> bool {
    forall|i: int|
        0 <= i < all.len() ==> !(#[trigger] all[i]).can_be(span, EvaluationOutcome::True)
}

/// In no environment can the span be false, and none keeps it as a guard.
pub open spec fn cannot_be_false(all: Seq<Sighting>, span: Span) -> bool {
    forall|i: int|
        0 <= i < all.len() ==> !(#[trigger] all[i]).can_be(span, EvaluationOutcome::False)
            && !all[i].is_kept(span)
}

/// Some environment can find an error at the span.
pub open spec fn can_err(all: Seq<Sighting>, span: Span) -> bool {
    exists|i: int| 0 <= i < all.len() && (#[trigger] all[i]).can_be(span, EvaluationOutcome::Error)
}

/// A source range has one span.
pub proof fn law_one_span_for_a_range(loc: Loc, span: Span)
    ensures
        is_range(loc, span) <==> span == Span::of_loc(loc),
{
}

/// The last observation for a span is what is recorded for it.
proof fn lemma_by_span(obs: Seq<Obs>, span: Span)
    ensures
        by_span(obs).contains_key(span) <==> exists|k: int|
            0 <= k < obs.len() && is_at((#[trigger] obs[k]).loc, span),
        forall|k: int|
            0 <= k < obs.len() && is_at((#[trigger] obs[k]).loc, span) && (forall|j: int|
                k < j < obs.len() ==> !is_at((#[trigger] obs[j]).loc, span)) ==> {
                let r = by_span(obs)[span];
                &&& r.set.can_true == obs[k].outcomes.contains(EvaluationOutcome::True)
                &&& r.set.can_false == obs[k].outcomes.contains(EvaluationOutcome::False)
                &&& r.set.can_error == obs[k].outcomes.contains(EvaluationOutcome::Error)
                &&& r.literal == obs[k].literal
                &&& r.kept == obs[k].kept
            },
    decreases obs.len(),
{
    if obs.len() > 0 {
        let front = obs.drop_last();
        let n = front.len() as int;
        lemma_by_span(front, span);
        assert(obs[n] == obs.last());
        if let Some(l) = obs.last().loc {
            law_one_span_for_a_range(l, span);
        }
        assert forall|k: int| 0 <= k < n implies #[trigger] front[k] == obs[k] by {}
        assert(by_span(obs).contains_key(span) <==> exists|k: int|
            0 <= k < obs.len() && is_at((#[trigger] obs[k]).loc, span)) by {
            if by_span(front).contains_key(span) {
                let k = choose|k: int| 0 <= k < n && is_at((#[trigger] front[k]).loc, span);
                assert(is_at(obs[k].loc, span));
            }
            if exists|k: int| 0 <= k < obs.len() && is_at((#[trigger] obs[k]).loc, span) {
                let k = choose|k: int| 0 <= k < obs.len() && is_at((#[trigger] obs[k]).loc, span);
                if k < n {
                    assert(is_at(front[k].loc, span));
                }
            }
        }
        assert forall|k: int|
            0 <= k < obs.len() && is_at((#[trigger] obs[k]).loc, span) && (forall|j: int|
                k < j < obs.len() ==> !is_at((#[trigger] obs[j]).loc, span)) implies {
            let r = by_span(obs)[span];
            &&& r.set.can_true == obs[k].outcomes.contains(EvaluationOutcome::True)
            &&& r.set.can_false == obs[k].outcomes.contains(EvaluationOutcome::False)
            &&& r.set.can_error == obs[k].outcomes.contains(EvaluationOutcome::Error)
            &&& r.literal == obs[k].literal
            &&& r.kept == obs[k].kept
        } by {
            if k < n {
                assert(!is_at(obs[n].loc, span));
                assert forall|j: int| k < j < n implies !is_at((#[trigger] front[j]).loc, span) by {
                    assert(!is_at(obs[j].loc, span));
                }
                assert(is_at(front[k].loc, span));
                assert(by_span(obs)[span] == by_span(front)[span]);
            }
        }
    }
}

/// Where some node is at the span, one of them counts.
proof fn lemma_counts(at: Sighting, span: Span, n: int)
    requires
        0 <= n <= at.observed.len(),
        forall|j: int| n <= j < at.observed.len() ==> !is_at(#[trigger] at.place(j), span),
    ensures
        at.evaluates(span) <==> exists|k: int| #[trigger] at.counts(span, k),
    decreases n,
{
    if n > 0 {
        if is_at(at.place(n - 1), span) {
            assert(at.counts(span, n - 1));
        } else {
            lemma_counts(at, span, n - 1);
        }
    } else {
        if exists|k: int| #[trigger] at.counts(span, k) {
            let k = choose|k: int| #[trigger] at.counts(span, k);
            assert(is_at(at.place(k), span));
        }
    }
}

/// What is recorded for a span is what was observed at it last: its outcomes,
/// whether it is a literal that is not the whole condition, and whether it is a
/// kept guard; and something is recorded exactly if a node there was evaluated.
pub proof fn law_recorded_is_what_was_seen(observed: Seq<Obs>, policy: Option<Loc>, span: Span)
    ensures
        ({
            let at = Sighting { observed, policy };
            let m = by_span(settled(observed, policy));
            &&& m.contains_key(span) <==> at.evaluates(span)
            &&& m.contains_key(span) ==> {
                &&& m[span].set.can_true == at.can_be(span, EvaluationOutcome::True)
                &&& m[span].set.can_false == at.can_be(span, EvaluationOutcome::False)
                &&& m[span].set.can_error == at.can_be(span, EvaluationOutcome::Error)
                &&& m[span].literal == at.is_literal(span)
                &&& m[span].kept == at.is_kept(span)
            }
        }),
{
    let at = Sighting { observed, policy };
    let obs = settled(observed, policy);
    let m = by_span(obs);
    lemma_by_span(obs, span);
    assert(obs.len() == observed.len());
    assert forall|k: int| 0 <= k < obs.len() implies (#[trigger] obs[k]).loc == at.place(k)
        && obs[k].outcomes == observed[k].outcomes && obs[k].kept == observed[k].kept
        && obs[k].literal == (observed[k].literal && k < observed.len() - 1) by {}
    assert(m.contains_key(span) <==> at.evaluates(span)) by {
        if m.contains_key(span) {
            let k = choose|k: int| 0 <= k < obs.len() && is_at((#[trigger] obs[k]).loc, span);
            assert(is_at(at.place(k), span));
        }
        if at.evaluates(span) {
            let k = choose|k: int|
                0 <= k < at.observed.len() && is_at(#[trigger] at.place(k), span);
            assert(is_at(obs[k].loc, span));
        }
    }
    lemma_counts(at, span, observed.len() as int);
    if m.contains_key(span) {
        let k = choose|k: int| #[trigger] at.counts(span, k);
        assert(is_at(obs[k].loc, span));
        assert forall|j: int| k < j < obs.len() implies !is_at((#[trigger] obs[j]).loc, span) by {
            assert(!is_at(at.place(j), span));
        }
        assert forall|i: int| #[trigger] at.counts(span, i) implies i == k by {
            if i < k {
                assert(!is_at(at.place(k), span));
            } else if k < i {
                assert(!is_at(at.place(i), span));
            }
        }
    }
}

/// The conjunctions that are listed are those that are reached from the root
/// through `&&` alone, with the spans of their operands; one whose whole or
/// whose right operand has no location is left out.
pub proof fn law_conjunctions_are_reached_through_and<T>(e: Expr<T>, c: Conjunction)
    ensures
        conjunctions_of(e).contains(c) <==> has_conjunction(e, c.span, c.left, c.right),
    decreases e,
{
    if e.kind is And {
        let left = *e.kind->And_left;
        let right = *e.kind->And_right;
        law_conjunctions_are_reached_through_and(left, c);
        law_conjunctions_are_reached_through_and(right, c);
        lemma_own(e, c);
        let own = own_conjunction(e);
        let ls = conjunctions_of(left);
        let rs = conjunctions_of(right);
        let all = conjunctions_of(e);
        assert(all == own + ls + rs);
        assert(all.contains(c) <==> own.contains(c) || ls.contains(c) || rs.contains(c)) by {
            if own.contains(c) {
                let i = own.index_of(c);
                assert(all[i] == c);
            }
            if ls.contains(c) {
                let i = ls.index_of(c);
                assert(all[own.len() + i] == c);
            }
            if rs.contains(c) {
                let i = rs.index_of(c);
                assert(all[own.len() + ls.len() + i] == c);
            }
            if all.contains(c) {
                let i = all.index_of(c);
                if i < own.len() {
                    assert(own[i] == c);
                } else if i < own.len() + ls.len() {
                    assert(ls[i - own.len()] == c);
                } else {
                    assert(rs[i - own.len() - ls.len()] == c);
                }
            }
        }
        let yes = seq![true];
        let no = seq![false];
        if own.contains(c) {
            let p = Seq::<bool>::empty();
            assert(conjunct(e, p) == Some(e));
        }
        if ls.contains(c) {
            let p = choose|p: Seq<bool>|
                (#[trigger] conjunct(left, p)) is Some && is_and_at(
                    conjunct(left, p)->Some_0,
                    c.span,
                    c.left,
                    c.right,
                );
            let q = yes + p;
            assert(q.drop_first() =~= p);
            assert(conjunct(e, q) == conjunct(left, p));
        }
        if rs.contains(c) {
            let p = choose|p: Seq<bool>|
                (#[trigger] conjunct(right, p)) is Some && is_and_at(
                    conjunct(right, p)->Some_0,
                    c.span,
                    c.left,
                    c.right,
                );
            let q = no + p;
            assert(q.drop_first() =~= p);
            assert(conjunct(e, q) == conjunct(right, p));
        }
        if has_conjunction(e, c.span, c.left, c.right) {
            let p = choose|p: Seq<bool>|
                (#[trigger] conjunct(e, p)) is Some && is_and_at(
                    conjunct(e, p)->Some_0,
                    c.span,
                    c.left,
                    c.right,
                );
            if p.len() > 0 {
                let q = p.drop_first();
                if p[0] {
                    assert(conjunct(e, p) == conjunct(left, q));
                } else {
                    assert(conjunct(e, p) == conjunct(right, q));
                }
            }
        }
    } else {
        if has_conjunction(e, c.span, c.left, c.right) {
            let p = choose|p: Seq<bool>|
                (#[trigger] conjunct(e, p)) is Some && is_and_at(
                    conjunct(e, p)->Some_0,
                    c.span,
                    c.left,
                    c.right,
                );
            assert(p.len() == 0);
        }
    }
}

/// What `e` itself adds to the list.
spec fn own_conjunction<T>(e: Expr<T>) -> Seq<Conjunction> {
    conjunctions_of(e).take(
        conjunctions_of(e).len() - conjunctions_of(*e.kind->And_left).len() - conjunctions_of(
            *e.kind->And_right,
        ).len(),
    )
}

proof fn lemma_own<T>(e: Expr<T>, c: Conjunction)
    requires
        e.kind is And,
    ensures
        conjunctions_of(e) == own_conjunction(e) + conjunctions_of(*e.kind->And_left)
            + conjunctions_of(*e.kind->And_right),
        own_conjunction(e).contains(c) <==> is_and_at(e, c.span, c.left, c.right),
{
    let l = *e.kind->And_left;
    let r = *e.kind->And_right;
    let own = own_conjunction(e);
    assert(conjunctions_of(e) =~= own + conjunctions_of(l) + conjunctions_of(r));
    if let Some(x) = e.loc {
        law_one_span_for_a_range(x, c.span);
    }
    if let Some(x) = r.loc {
        law_one_span_for_a_range(x, c.right);
    }
    if let (Some(x), Some(s)) = (l.loc, c.left) {
        law_one_span_for_a_range(x, s);
    }
    if e.loc is Some && r.loc is Some {
        assert(own.len() == 1);
        if is_and_at(e, c.span, c.left, c.right) {
            assert(own[0] == c);
        }
    } else {
        assert(own.len() == 0);
    }
}

/// A conjunction of the condition is dead exactly where it stops.
proof fn lemma_dead(observed: Seq<Obs>, policy: Option<Loc>, c: Conjunction)
    ensures
        c.dead_in(by_span(settled(observed, policy))) <==> (Sighting { observed, policy }).stops(
            c.span,
            c.left,
            c.right,
        ),
{
    law_recorded_is_what_was_seen(observed, policy, c.span);
    law_recorded_is_what_was_seen(observed, policy, c.right);
    if let Some(l) = c.left {
        law_recorded_is_what_was_seen(observed, policy, l);
    }
}

/// An environment skips a span exactly if it does not get to it.
proof fn lemma_skipped<T>(observed: Seq<Obs>, policy: Option<Loc>, e: Expr<T>, span: Span)
    ensures
        crate::simplify::skipped(by_span(settled(observed, policy)), conjunctions_of(e), span)
            <==> not_reached(Sighting { observed, policy }, e, span),
{
    let m = by_span(settled(observed, policy));
    let at = Sighting { observed, policy };
    let cs = conjunctions_of(e);
    if crate::simplify::skipped(m, cs, span) {
        let c = choose|c: int|
            0 <= c < cs.len() && (#[trigger] cs[c]).dead_in(m) && cs[c].right.encloses(span);
        lemma_dead(observed, policy, cs[c]);
        assert(cs.contains(cs[c]));
        law_conjunctions_are_reached_through_and(e, cs[c]);
        assert(at.stops(cs[c].span, cs[c].left, cs[c].right));
    }
    if not_reached(at, e, span) {
        let (whole, left, right) = choose|whole: Span, left: Option<Span>, right: Span|
            #![trigger at.stops(whole, left, right)]
            has_conjunction(e, whole, left, right) && at.stops(whole, left, right) && lies_in(
                span,
                right,
            );
        let c = Conjunction { span: whole, left, right };
        law_conjunctions_are_reached_through_and(e, c);
        lemma_dead(observed, policy, c);
        let i = cs.index_of(c);
        assert(cs[i].dead_in(m) && cs[i].right.encloses(span));
    }
}

/// What is judged of a span, in terms of what was seen.
proof fn lemma_judged<T>(
    observed: Seq<Vec<NodeOutcome>>,
    policy: Option<Loc>,
    e: Expr<T>,
    span: Span,
)
    ensures
        ({
            let per_env = tables(observed, policy);
            let all = sightings(observed, policy);
            let cs = conjunctions_of(e);
            &&& crate::simplify::judged(per_env, cs, span) <==> may_speak(all, e, span)
            &&& crate::simplify::never_true(per_env, span) <==> cannot_be_true(all, span)
            &&& crate::simplify::never_false(per_env, span) <==> cannot_be_false(all, span)
            &&& crate::simplify::may_err(per_env, span) <==> can_err(all, span)
        }),
{
    let per_env = tables(observed, policy);
    let all = sightings(observed, policy);
    let cs = conjunctions_of(e);
    assert forall|i: int| 0 <= i < all.len() implies {
        let m = #[trigger] per_env[i];
        let at = all[i];
        &&& m.contains_key(span) <==> at.evaluates(span)
        &&& m.contains_key(span) ==> {
            &&& m[span].set.can_true == at.can_be(span, EvaluationOutcome::True)
            &&& m[span].set.can_false == at.can_be(span, EvaluationOutcome::False)
            &&& m[span].set.can_error == at.can_be(span, EvaluationOutcome::Error)
            &&& m[span].literal == at.is_literal(span)
            &&& m[span].kept == at.is_kept(span)
        }
        &&& !m.contains_key(span) ==> {
            &&& !at.can_be(span, EvaluationOutcome::True)
            &&& !at.can_be(span, EvaluationOutcome::False)
            &&& !at.can_be(span, EvaluationOutcome::Error)
            &&& !at.is_kept(span)
        }
        &&& crate::simplify::skipped(m, cs, span) <==> not_reached(at, e, span)
    } by {
        let obs = views(observed[i]@);
        law_recorded_is_what_was_seen(obs, policy, span);
        lemma_skipped(obs, policy, e, span);
        lemma_counts(all[i], span, obs.len() as int);
    }
    assert(per_env.len() == all.len());
    if crate::simplify::judged(per_env, cs, span) {
        let i = choose|i: int| 0 <= i < per_env.len() && (#[trigger] per_env[i]).contains_key(span);
        assert(all[i].evaluates(span));
        assert forall|i: int| 0 <= i < all.len() implies if (#[trigger] all[i]).evaluates(span) {
            !all[i].is_literal(span)
        } else {
            not_reached(all[i], e, span)
        } by {
            assert(per_env[i].contains_key(span) <==> all[i].evaluates(span));
        }
    }
    if may_speak(all, e, span) {
        let i = choose|i: int| 0 <= i < all.len() && (#[trigger] all[i]).evaluates(span);
        assert(per_env[i].contains_key(span));
        assert forall|i: int|
            0 <= i < per_env.len() implies if (#[trigger] per_env[i]).contains_key(span) {
            !per_env[i][span].literal
        } else {
            crate::simplify::skipped(per_env[i], cs, span)
        } by {
            assert(all[i].evaluates(span) <==> per_env[i].contains_key(span));
        }
    }
    if crate::simplify::never_true(per_env, span) {
        assert forall|i: int| 0 <= i < all.len() implies !(#[trigger] all[i]).can_be(
            span,
            EvaluationOutcome::True,
        ) by {
            assert(per_env[i].contains_key(span) <==> all[i].evaluates(span));
        }
    }
    if cannot_be_true(all, span) {
        assert forall|i: int|
            0 <= i < per_env.len() && (
            #[trigger] per_env[i]).contains_key(span) implies !per_env[i][span].set.can_true by {
            assert(!all[i].can_be(span, EvaluationOutcome::True));
        }
    }
    if crate::simplify::never_false(per_env, span) {
        assert forall|i: int| 0 <= i < all.len() implies !(#[trigger] all[i]).can_be(
            span,
            EvaluationOutcome::False,
        ) && !all[i].is_kept(span) by {
            assert(per_env[i].contains_key(span) <==> all[i].evaluates(span));
        }
    }
    if cannot_be_false(all, span) {
        assert forall|i: int|
            0 <= i < per_env.len() && (
            #[trigger] per_env[i]).contains_key(span) implies !per_env[i][span].set.can_false
            && !per_env[i][span].kept by {
            assert(!all[i].can_be(span, EvaluationOutcome::False));
        }
    }
    if crate::simplify::may_err(per_env, span) {
        let i = choose|i: int|
            0 <= i < per_env.len() && (#[trigger] per_env[i]).contains_key(span)
                && per_env[i][span].set.can_error;
        assert(all[i].can_be(span, EvaluationOutcome::Error));
    }
    if can_err(all, span) {
        let i = choose|i: int|
            0 <= i < all.len() && (#[trigger] all[i]).can_be(span, EvaluationOutcome::Error);
        assert(per_env[i].contains_key(span));
    }
}

/// The findings are complete: where some environment evaluates a span that is
/// no literal, every other one does not get to it, and no environment can find
/// it true, whatever else it can find, the span is reported or a finding lies
/// within it; and likewise where none can find it false, nor keeps it.
pub proof fn law_findings_are_complete<T>(
    findings: Seq<Finding>,
    observed: Seq<Vec<NodeOutcome>>,
    policy: Option<Loc>,
    e: Expr<T>,
    span: Span,
)
    requires
        are_findings(findings, tables(observed, policy), conjunctions_of(e)),
        may_speak(sightings(observed, policy), e, span),
        cannot_be_true(sightings(observed, policy), span) || cannot_be_false(
            sightings(observed, policy),
            span,
        ),
    ensures
        exists|i: int|
            0 <= i < findings.len() && lies_in((#[trigger] findings[i]).span(), span),
{
    lemma_judged(observed, policy, e, span);
    crate::simplify::law_determined_spans_are_explained(
        findings,
        tables(observed, policy),
        conjunctions_of(e),
        span,
    );
    let i = choose|i: int|
        0 <= i < findings.len() && span.encloses((#[trigger] findings[i]).span());
    assert(lies_in(findings[i].span(), span));
}

/// The findings are sound: what a finding speaks of is evaluated in some
/// environment and not gotten to in the others, is no literal, and is never
/// true, never false or neither, as the finding and its message say; and no
/// other such span lies within it.
pub proof fn law_findings_are_sound<T>(
    findings: Seq<Finding>,
    observed: Seq<Vec<NodeOutcome>>,
    policy: Option<Loc>,
    e: Expr<T>,
    i: int,
)
    requires
        are_findings(findings, tables(observed, policy), conjunctions_of(e)),
        0 <= i < findings.len(),
    ensures
        ({
            let all = sightings(observed, policy);
            let span = Span { offset: findings[i].offset, length: findings[i].length };
            &&& may_speak(all, e, span)
            &&& match findings[i].kind {
                FindingKind::NeverTrue => cannot_be_true(all, span) && !cannot_be_false(all, span),
                FindingKind::NeverFalse => cannot_be_false(all, span) && !cannot_be_true(all, span),
                FindingKind::AlwaysError => cannot_be_true(all, span) && cannot_be_false(all, span),
            }
            &&& findings[i].message@ == "this expression "@ + match findings[i].kind {
                FindingKind::NeverTrue => if can_err(all, span) {
                    "is never true (it is false, or errors)"@
                } else {
                    "is always false"@
                },
                FindingKind::NeverFalse => if can_err(all, span) {
                    "is never false (it is true, or errors)"@
                } else {
                    "is always true"@
                },
                FindingKind::AlwaysError => "always errors"@,
            } + " in every request environment, given what is evaluated before it"@
            &&& forall|inner: Span|
                #![trigger lies_in(inner, span)]
                lies_in(inner, span) && may_speak(all, e, inner) && (cannot_be_true(all, inner)
                    || cannot_be_false(all, inner)) ==> inner == span
        }),
{
    let per_env = tables(observed, policy);
    let cs = conjunctions_of(e);
    let all = sightings(observed, policy);
    let span = findings[i].span();
    assert(reported(per_env, cs, span));
    lemma_judged(observed, policy, e, span);
    assert forall|inner: Span|
        #![trigger lies_in(inner, span)]
        lies_in(inner, span) && may_speak(all, e, inner) && (cannot_be_true(all, inner)
            || cannot_be_false(all, inner)) implies inner == span by {
        lemma_judged(observed, policy, e, inner);
        assert(determined(per_env, cs, inner));
    }
}

/// The findings come in evaluation order: by where they end, and of those that
/// end together the shorter first; so no span is reported twice.
pub proof fn law_findings_come_in_evaluation_order(
    findings: Seq<Finding>,
    per_env: Seq<Map<Span, Observed>>,
    conjunctive: Seq<Conjunction>,
    i: int,
    j: int,
)
    requires
        are_findings(findings, per_env, conjunctive),
        0 <= i < j < findings.len(),
    ensures
        ({
            let a = findings[i].offset + findings[i].length;
            let b = findings[j].offset + findings[j].length;
            a < b || (a == b && findings[i].length < findings[j].length)
        }),
{
    assert(findings[i].span().before(findings[j].span()));
}

} // verus!
