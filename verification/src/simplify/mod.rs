//! The policy simplifier: where in a policy an expression is statically
//! true or false (or always an error), pinpointed with the symbolic
//! evaluator.
//!
//! For every static policy that validates, and every request environment of
//! the schema, the evaluator computes the outcomes each visited node of the
//! policy condition can take under the *trail*: the assumptions implied by
//! the path to it (`a` was true when `b` in `a && b` runs). Nodes are keyed by
//! source span, so environments are aligned by position rather than by tree
//! shape. Over the spans in evaluation order (post-order by source position):
//!
//! * a span is a [`Finding`] when, in every environment still under
//!   consideration, its outcome set lacks `True` (never true), or in every one
//!   lacks `False` (never false), and no span inside it is a finding already:
//!   the innermost cause is reported, its ancestors are implied;
//! * an environment is not under consideration for a span that lies in the
//!   right operand of a conjunction whose left operand can never be true
//!   there: the policy is false in that environment already;
//! * a `has`/`hasTag` guard the evaluator *keeps* is not reported as never
//!   false: however true the assumptions make it, strict validation needs it.
//!   It is still reported when never true.
//!
//! Policies that do not validate, template-linked policies and policies
//! without a condition are skipped.

pub mod laws;
pub mod run;
pub mod run_laws;

use vstd::prelude::*;

use crate::ast::{Expr, ExprKind, Loc};
use crate::evaluator::run::{NodeOutcome, Obs};
use crate::outcome::{EvaluationOutcome, Outcomes};
use crate::policy::Policy;

pub use run::{
    check_assumptions, has_condition, simplify, SimplifyError, SimplifyStep, Simplifier,
};

verus! {

/// What a span can never be.
#[derive(Clone, Copy, Debug, PartialEq, Eq, Structural)]
pub enum FindingKind {
    /// The expression can never be `true`: it is `false`, or an error.
    NeverTrue,
    /// The expression can never be `false`: it is `true`, or an error.
    NeverFalse,
    /// The expression always errors.
    AlwaysError,
}

/// A statically determined expression of a policy document.
#[derive(Debug)]
pub struct Finding {
    /// Byte offset of the expression in the document.
    pub offset: usize,
    /// Byte length of the expression in the document.
    pub length: usize,
    /// What the expression can never be.
    pub kind: FindingKind,
    /// A message for the user.
    pub message: String,
}

/// A source span.
#[derive(Clone, Copy, Debug, PartialEq, Eq, Structural)]
pub struct Span {
    pub offset: usize,
    pub length: usize,
}

impl Span {
    /// Where the span ends.
    pub open spec fn end(self) -> int {
        self.offset + self.length
    }

    /// The end of the span is a position.
    pub open spec fn fits(self) -> bool {
        self.end() <= usize::MAX
    }

    /// `inner` lies within the span.
    pub open spec fn encloses(self, inner: Span) -> bool {
        self.offset <= inner.offset && inner.end() <= self.end()
    }

    /// The span comes before `other` in evaluation order: a node completes
    /// after its children, so by end, shorter spans first.
    pub open spec fn before(self, other: Span) -> bool {
        self.end() < other.end() || (self.end() == other.end() && self.length < other.length)
    }

    /// The span of a source range.
    pub open spec fn of_loc(loc: Loc) -> Span {
        Span {
            offset: loc.start,
            length: if loc.start <= loc.end {
                (loc.end - loc.start) as usize
            } else {
                0
            },
        }
    }

    /// The span of a source range.
    pub fn of(loc: &Loc) -> (r: Span)
        ensures
            r == Span::of_loc(*loc),
            r.fits(),
    {
        Span {
            offset: loc.start,
            length: if loc.start <= loc.end {
                loc.end - loc.start
            } else {
                0
            },
        }
    }

    /// Whether `inner` lies within the span.
    pub fn contains(&self, inner: &Span) -> (r: bool)
        requires
            self.fits(),
            inner.fits(),
        ensures
            r == self.encloses(*inner),
    {
        self.offset <= inner.offset && inner.offset + inner.length <= self.offset + self.length
    }

    fn precedes(&self, other: &Span) -> (r: bool)
        requires
            self.fits(),
            other.fits(),
        ensures
            r == self.before(*other),
    {
        let a: usize = self.offset + self.length;
        let b: usize = other.offset + other.length;
        a < b || (a == b && self.length < other.length)
    }
}

/// A `&&` in *conjunctive position* (reachable from the root through `&&`
/// only) with the spans of its operands. The left one is absent for a scope
/// constraint, which has no source location.
#[derive(Clone, Copy, Debug)]
pub struct Conjunction {
    pub span: Span,
    pub left: Option<Span>,
    pub right: Span,
}

/// The span of a node, if it has a source location.
pub open spec fn span_spec<T>(e: Expr<T>) -> Option<Span> {
    match e.loc {
        Some(l) => Some(Span::of_loc(l)),
        None => None,
    }
}

fn span_of<T>(e: &Expr<T>) -> (r: Option<Span>)
    ensures
        r == span_spec(*e),
        r matches Some(s) ==> s.fits(),
{
    match &e.loc {
        Some(l) => Some(Span::of(l)),
        None => None,
    }
}

/// The conjunctions of `e`: its own, those of its left operand, those of its
/// right one.
pub open spec fn conjunctions_of<T>(e: Expr<T>) -> Seq<Conjunction>
    decreases e,
{
    match e.kind {
        ExprKind::And { left, right } => {
            let own = match (span_spec(e), span_spec(*right)) {
                (Some(span), Some(r)) => seq![
                    Conjunction { span, left: span_spec(*left), right: r },
                ],
                _ => seq![],
            };
            own + conjunctions_of(*left) + conjunctions_of(*right)
        },
        _ => seq![],
    }
}

/// The right operands fit.
pub open spec fn rights_fit(conjunctive: Seq<Conjunction>) -> bool {
    forall|c: int| 0 <= c < conjunctive.len() ==> (#[trigger] conjunctive[c]).right.fits()
}

/// The conjunctions of `e`. When one can never be true because its *left*
/// operand cannot, the whole condition can never be true (the policy is
/// false) and its right operand does not run.
pub fn conjunctions<T>(e: &Expr<T>, out: &mut Vec<Conjunction>)
    ensures
        final(out)@ == old(out)@ + conjunctions_of(*e),
        rights_fit(old(out)@) ==> rights_fit(final(out)@),
    decreases e,
{
    match &e.kind {
        ExprKind::And { left, right } => {
            if let (Some(span), Some(r)) = (span_of(e), span_of(&**right)) {
                out.push(Conjunction { span, left: span_of(&**left), right: r });
            }
            conjunctions(&**left, out);
            conjunctions(&**right, out);
            assert(out@ =~= old(out)@ + conjunctions_of(*e));
        },
        _ => {
            assert(out@ =~= old(out)@ + conjunctions_of(*e));
        },
    }
}

/// An outcome set, as three flags.
#[derive(Clone, Copy, Debug, PartialEq, Eq, Structural)]
pub struct OutcomeSet {
    pub can_true: bool,
    pub can_false: bool,
    pub can_error: bool,
}

impl OutcomeSet {
    /// The flags of a set.
    pub open spec fn flags(s: Set<EvaluationOutcome>) -> OutcomeSet {
        OutcomeSet {
            can_true: s.contains(EvaluationOutcome::True),
            can_false: s.contains(EvaluationOutcome::False),
            can_error: s.contains(EvaluationOutcome::Error),
        }
    }

    /// The flags of `outcomes`.
    pub fn of(outcomes: &Outcomes) -> (r: Self)
        ensures
            r == OutcomeSet::flags(outcomes@),
    {
        OutcomeSet {
            can_true: outcomes.contains(EvaluationOutcome::True),
            can_false: outcomes.contains(EvaluationOutcome::False),
            can_error: outcomes.contains(EvaluationOutcome::Error),
        }
    }
}

/// What is recorded about a visited node: its outcome set, whether it is a
/// literal the user wrote, whether it is a kept guard.
#[derive(Clone, Copy, Debug, PartialEq, Eq, Structural)]
pub struct Observed {
    pub set: OutcomeSet,
    pub literal: bool,
    pub kept: bool,
}

/// What was observed, by span.
#[derive(Debug)]
pub struct SpanTable {
    entries: Vec<(Span, Observed)>,
}

/// What the entries map the spans to; a later entry counts.
pub open spec fn span_map(entries: Seq<(Span, Observed)>) -> Map<Span, Observed>
    decreases entries.len(),
{
    if entries.len() == 0 {
        Map::empty()
    } else {
        span_map(entries.drop_last()).insert(entries.last().0, entries.last().1)
    }
}

proof fn lemma_span_map(entries: Seq<(Span, Observed)>, span: Span)
    ensures
        span_map(entries).contains_key(span) <==> exists|i: int|
            0 <= i < entries.len() && (#[trigger] entries[i]).0 == span,
    decreases entries.len(),
{
    if entries.len() > 0 {
        let front = entries.drop_last();
        lemma_span_map(front, span);
        if span_map(front).contains_key(span) {
            let i = choose|i: int| 0 <= i < front.len() && (#[trigger] front[i]).0 == span;
            assert(entries[i].0 == span);
        }
        if exists|i: int| 0 <= i < entries.len() && (#[trigger] entries[i]).0 == span {
            let i = choose|i: int| 0 <= i < entries.len() && (#[trigger] entries[i]).0 == span;
            if i < front.len() {
                assert(front[i].0 == span);
            }
        }
        if entries.last().0 == span {
            assert(entries[entries.len() - 1].0 == span);
        }
    }
}

impl SpanTable {
    /// What the table maps the spans to.
    pub closed spec fn view(&self) -> Map<Span, Observed> {
        span_map(self.entries@)
    }

    /// All spans fit.
    pub open spec fn spans_fit(&self) -> bool {
        forall|s: Span| #[trigger] self@.contains_key(s) ==> s.fits()
    }

    /// An empty table.
    pub fn new() -> (r: Self)
        ensures
            r@ == Map::<Span, Observed>::empty(),
    {
        SpanTable { entries: Vec::new() }
    }

    /// Records `o` for `span`.
    pub fn put(&mut self, span: Span, o: Observed)
        ensures
            final(self)@ == old(self)@.insert(span, o),
    {
        self.entries.push((span, o));
        assert(self.entries@.drop_last() =~= old(self).entries@);
    }

    /// What is recorded for `span`.
    pub fn get(&self, span: &Span) -> (r: Option<Observed>)
        ensures
            r == if self@.contains_key(*span) {
                Some(self@[*span])
            } else {
                None
            },
    {
        let mut i: usize = self.entries.len();
        assert(self.entries@.take(i as int) =~= self.entries@);
        while i > 0
            invariant
                i <= self.entries@.len(),
                span_map(self.entries@).contains_key(*span) == span_map(
                    self.entries@.take(i as int),
                ).contains_key(*span),
                span_map(self.entries@).contains_key(*span) ==> span_map(self.entries@)[*span]
                    == span_map(self.entries@.take(i as int))[*span],
            decreases i,
        {
            i -= 1;
            assert(self.entries@.take(i + 1).drop_last() =~= self.entries@.take(i as int));
            assert(self.entries@.take(i + 1).last() == self.entries@[i as int]);
            if self.entries[i].0 == *span {
                return Some(self.entries[i].1);
            }
        }
        None
    }
}

/// The outcome sets of the visited nodes, by span.
pub open spec fn by_span(observed: Seq<Obs>) -> Map<Span, Observed>
    decreases observed.len(),
{
    if observed.len() == 0 {
        Map::empty()
    } else {
        let o = observed.last();
        let front = by_span(observed.drop_last());
        match o.loc {
            Some(l) => front.insert(
                Span::of_loc(l),
                Observed {
                    set: OutcomeSet::flags(o.outcomes),
                    literal: o.literal,
                    kept: o.kept,
                },
            ),
            None => front,
        }
    }
}

/// What was observed of the nodes.
pub open spec fn views(observed: Seq<NodeOutcome>) -> Seq<Obs> {
    observed.map_values(|o: NodeOutcome| o@)
}

/// The span was evaluated, and can never be true.
pub open spec fn never_true_in(m: Map<Span, Observed>, span: Span) -> bool {
    m.contains_key(span) && !m[span].set.can_true
}

impl Conjunction {
    /// The left operand can never be true, so the right one does not run. A
    /// left operand the typechecker folded away (`false && x` becomes a
    /// literal at the `&&`), or that has no location, shows as the `&&` being
    /// never true with nothing of its right operand recorded.
    pub open spec fn dead_in(self, m: Map<Span, Observed>) -> bool {
        never_true_in(m, self.span) && match self.left {
            Some(left) => if m.contains_key(left) {
                never_true_in(m, left)
            } else {
                !m.contains_key(self.right)
            },
            None => !m.contains_key(self.right),
        }
    }

    fn is_dead(&self, m: &SpanTable) -> (r: bool)
        ensures
            r == self.dead_in(m@),
    {
        let span_dead = match m.get(&self.span) {
            Some(o) => !o.set.can_true,
            None => false,
        };
        if !span_dead {
            return false;
        }
        if let Some(left) = &self.left {
            if let Some(o) = m.get(left) {
                return !o.set.can_true;
            }
        }
        m.get(&self.right).is_none()
    }
}

/// The environment does not reach the span, because the policy is false there
/// already.
pub open spec fn skipped(
    m: Map<Span, Observed>,
    conjunctive: Seq<Conjunction>,
    span: Span,
) -> bool {
    exists|c: int|
        0 <= c < conjunctive.len() && (#[trigger] conjunctive[c]).dead_in(m)
            && conjunctive[c].right.encloses(span)
}

/// The span can be judged: some environment evaluates it, every other one
/// skips it, and it is no literal the user wrote.
pub open spec fn judged(
    per_env: Seq<Map<Span, Observed>>,
    conjunctive: Seq<Conjunction>,
    span: Span,
) -> bool {
    &&& exists|i: int| 0 <= i < per_env.len() && (#[trigger] per_env[i]).contains_key(span)
    &&& forall|i: int|
        0 <= i < per_env.len() ==> if (#[trigger] per_env[i]).contains_key(span) {
            !per_env[i][span].literal
        } else {
            skipped(per_env[i], conjunctive, span)
        }
}

/// No environment that evaluates the span can find it true.
pub open spec fn never_true(per_env: Seq<Map<Span, Observed>>, span: Span) -> bool {
    forall|i: int|
        0 <= i < per_env.len() && (#[trigger] per_env[i]).contains_key(span)
            ==> !per_env[i][span].set.can_true
}

/// No environment that evaluates the span can find it false, nor keeps it as
/// a guard.
pub open spec fn never_false(per_env: Seq<Map<Span, Observed>>, span: Span) -> bool {
    forall|i: int|
        0 <= i < per_env.len() && (#[trigger] per_env[i]).contains_key(span)
            ==> !per_env[i][span].set.can_false && !per_env[i][span].kept
}

/// Some environment that evaluates the span can find an error.
pub open spec fn may_err(per_env: Seq<Map<Span, Observed>>, span: Span) -> bool {
    exists|i: int|
        0 <= i < per_env.len() && (#[trigger] per_env[i]).contains_key(span)
            && per_env[i][span].set.can_error
}

/// The span is statically determined.
pub open spec fn determined(
    per_env: Seq<Map<Span, Observed>>,
    conjunctive: Seq<Conjunction>,
    span: Span,
) -> bool {
    judged(per_env, conjunctive, span) && (never_true(per_env, span) || never_false(
        per_env,
        span,
    ))
}

/// The span is reported: it is determined, and no other span inside it is.
pub open spec fn reported(
    per_env: Seq<Map<Span, Observed>>,
    conjunctive: Seq<Conjunction>,
    span: Span,
) -> bool {
    determined(per_env, conjunctive, span) && forall|inner: Span| #[trigger]
        determined(per_env, conjunctive, inner) && span.encloses(inner) ==> inner == span
}

/// What a determined span can never be.
pub open spec fn kind_of(per_env: Seq<Map<Span, Observed>>, span: Span) -> FindingKind {
    if never_true(per_env, span) && never_false(per_env, span) {
        FindingKind::AlwaysError
    } else if never_true(per_env, span) {
        FindingKind::NeverTrue
    } else {
        FindingKind::NeverFalse
    }
}

/// The message of a finding.
pub open spec fn message_of(kind: FindingKind, can_error: bool) -> Seq<char> {
    let what = match (kind, can_error) {
        (FindingKind::AlwaysError, _) => "always errors"@,
        (FindingKind::NeverTrue, true) => "is never true (it is false, or errors)"@,
        (FindingKind::NeverTrue, false) => "is always false"@,
        (FindingKind::NeverFalse, true) => "is never false (it is true, or errors)"@,
        (FindingKind::NeverFalse, false) => "is always true"@,
    };
    "this expression "@ + what
        + " in every request environment, given what is evaluated before it"@
}

fn message(kind: FindingKind, can_error: bool) -> (r: String)
    ensures
        r@ == message_of(kind, can_error),
{
    let what = match kind {
        FindingKind::AlwaysError => "always errors",
        FindingKind::NeverTrue => if can_error {
            "is never true (it is false, or errors)"
        } else {
            "is always false"
        },
        FindingKind::NeverFalse => if can_error {
            "is never false (it is true, or errors)"
        } else {
            "is always true"
        },
    };
    let start = "this expression ".to_owned();
    let middle = start.concat(what);
    middle.concat(" in every request environment, given what is evaluated before it")
}

impl Finding {
    /// Where the finding is.
    pub open spec fn span(self) -> Span {
        Span { offset: self.offset, length: self.length }
    }
}

/// The tables, as maps.
pub open spec fn maps(per_env: Seq<SpanTable>) -> Seq<Map<Span, Observed>> {
    per_env.map_values(|t: SpanTable| t@)
}

/// The findings: one for each reported span, in evaluation order.
pub open spec fn are_findings(
    findings: Seq<Finding>,
    per_env: Seq<Map<Span, Observed>>,
    conjunctive: Seq<Conjunction>,
) -> bool {
    &&& forall|i: int|
        0 <= i < findings.len() ==> {
            let span = (#[trigger] findings[i]).span();
            &&& reported(per_env, conjunctive, span)
            &&& findings[i].kind == kind_of(per_env, span)
            &&& findings[i].message@ == message_of(kind_of(per_env, span), may_err(per_env, span))
        }
    &&& forall|i: int, j: int|
        0 <= i < j < findings.len() ==> (#[trigger] findings[i]).span().before(
            (#[trigger] findings[j]).span(),
        )
    &&& forall|span: Span| #[trigger]
        reported(per_env, conjunctive, span) ==> exists|i: int|
            0 <= i < findings.len() && (#[trigger] findings[i]).span() == span
}

/// The spans come one after the other in evaluation order.
pub open spec fn in_order(spans: Seq<Span>) -> bool {
    forall|i: int, j: int|
        0 <= i < j < spans.len() ==> (#[trigger] spans[i]).before(#[trigger] spans[j])
}

/// The spans fit.
pub open spec fn all_fit(spans: Seq<Span>) -> bool {
    forall|i: int| 0 <= i < spans.len() ==> (#[trigger] spans[i]).fits()
}

/// Puts `span` at its place, unless it is there.
fn insert_span(spans: &mut Vec<Span>, span: Span)
    requires
        in_order(old(spans)@),
        all_fit(old(spans)@),
        span.fits(),
    ensures
        in_order(final(spans)@),
        all_fit(final(spans)@),
        forall|s: Span| #[trigger]
            final(spans)@.contains(s) <==> old(spans)@.contains(s) || s == span,
{
    let mut i: usize = 0;
    while i < spans.len() && spans[i].precedes(&span)
        invariant
            i <= spans@.len(),
            spans@ == old(spans)@,
            all_fit(spans@),
            span.fits(),
            forall|k: int| 0 <= k < i ==> (#[trigger] spans@[k]).before(span),
        decreases spans@.len() - i,
    {
        i += 1;
    }
    let ghost was = spans@;
    if i < spans.len() && spans[i] == span {
        assert(was[i as int] == span);
        return;
    }
    spans.insert(i, span);
    proof {
        assert(spans@ == was.insert(i as int, span));
        assert forall|a: int, b: int| 0 <= a < b < spans@.len() implies (
        #[trigger] spans@[a]).before(#[trigger] spans@[b]) by {
            let a0 = if a < i { a } else { a - 1 };
            let b0 = if b < i { b } else { b - 1 };
            if a != i {
                assert(spans@[a] == was[a0]);
            }
            if b != i {
                assert(spans@[b] == was[b0]);
            }
            if i < was.len() {
                assert(was[i as int] != span && !was[i as int].before(span));
                if b > i {
                    assert(b0 == i || was[i as int].before(was[b0]));
                }
            }
        }
        assert forall|s: Span| #[trigger] spans@.contains(s) <==> was.contains(s) || s == span by {
            if spans@.contains(s) && s != span {
                let k = choose|k: int| 0 <= k < spans@.len() && spans@[k] == s;
                assert(was[if k < i { k } else { k - 1 }] == s);
            }
            if was.contains(s) {
                let k = choose|k: int| 0 <= k < was.len() && was[k] == s;
                assert(spans@[if k < i { k } else { k + 1 }] == s);
            }
            if s == span {
                assert(spans@[i as int] == s);
            }
        }
        assert forall|k: int| 0 <= k < spans@.len() implies (#[trigger] spans@[k]).fits() by {
            if k != i {
                assert(spans@[k] == was[if k < i { k } else { k - 1 }]);
            }
        }
    }
}

/// Some of the tables has the span.
pub open spec fn seen(per_env: Seq<Map<Span, Observed>>, span: Span) -> bool {
    exists|i: int| 0 <= i < per_env.len() && (#[trigger] per_env[i]).contains_key(span)
}

impl SpanTable {
    /// Puts the spans of the table at their places.
    fn add_spans(&self, spans: &mut Vec<Span>)
        requires
            self.spans_fit(),
            in_order(old(spans)@),
            all_fit(old(spans)@),
        ensures
            in_order(final(spans)@),
            all_fit(final(spans)@),
            forall|s: Span| #[trigger]
                final(spans)@.contains(s) <==> old(spans)@.contains(s) || self@.contains_key(s),
    {
        let mut i: usize = 0;
        while i < self.entries.len()
            invariant
                i <= self.entries@.len(),
                self.spans_fit(),
                in_order(spans@),
                all_fit(spans@),
                forall|s: Span| #[trigger]
                    spans@.contains(s) <==> old(spans)@.contains(s) || exists|k: int|
                        0 <= k < i && (#[trigger] self.entries@[k]).0 == s,
            decreases self.entries@.len() - i,
        {
            let span = self.entries[i].0;
            proof {
                lemma_span_map(self.entries@, span);
                assert(self@.contains_key(span));
            }
            insert_span(spans, span);
            i += 1;
        }
        proof {
            assert forall|s: Span| #[trigger] spans@.contains(s) <==> old(spans)@.contains(s)
                || self@.contains_key(s) by {
                lemma_span_map(self.entries@, s);
            }
        }
    }
}

/// Every span seen, in evaluation order.
fn all_spans(per_env: &Vec<SpanTable>) -> (r: Vec<Span>)
    requires
        forall|i: int| 0 <= i < per_env@.len() ==> (#[trigger] per_env@[i]).spans_fit(),
    ensures
        in_order(r@),
        all_fit(r@),
        forall|s: Span| #[trigger] r@.contains(s) <==> seen(maps(per_env@), s),
{
    let mut spans: Vec<Span> = Vec::new();
    let ghost ms = maps(per_env@);
    let mut i: usize = 0;
    while i < per_env.len()
        invariant
            i <= per_env@.len(),
            ms == maps(per_env@),
            forall|i: int| 0 <= i < per_env@.len() ==> (#[trigger] per_env@[i]).spans_fit(),
            in_order(spans@),
            all_fit(spans@),
            forall|s: Span| #[trigger]
                spans@.contains(s) <==> exists|k: int|
                    0 <= k < i && (#[trigger] ms[k]).contains_key(s),
        decreases per_env@.len() - i,
    {
        per_env[i].add_spans(&mut spans);
        assert(ms[i as int] == per_env@[i as int]@);
        i += 1;
    }
    spans
}

fn is_skipped(m: &SpanTable, conjunctive: &Vec<Conjunction>, span: &Span) -> (r: bool)
    requires
        rights_fit(conjunctive@),
        span.fits(),
    ensures
        r == skipped(m@, conjunctive@, *span),
{
    let mut c: usize = 0;
    while c < conjunctive.len()
        invariant
            c <= conjunctive@.len(),
            rights_fit(conjunctive@),
            span.fits(),
            forall|k: int|
                0 <= k < c ==> !((#[trigger] conjunctive@[k]).dead_in(m@)
                    && conjunctive@[k].right.encloses(*span)),
        decreases conjunctive@.len() - c,
    {
        if conjunctive[c].is_dead(m) && conjunctive[c].right.contains(span) {
            return true;
        }
        c += 1;
    }
    false
}

/// What the span can never be and whether it can err, if it is determined.
fn judge(per_env: &Vec<SpanTable>, conjunctive: &Vec<Conjunction>, span: &Span) -> (r: Option<
    (FindingKind, bool),
>)
    requires
        rights_fit(conjunctive@),
        span.fits(),
    ensures
        match r {
            Some((kind, can_error)) => determined(maps(per_env@), conjunctive@, *span) && kind
                == kind_of(maps(per_env@), *span) && can_error == may_err(maps(per_env@), *span),
            None => !determined(maps(per_env@), conjunctive@, *span),
        },
{
    let ghost ms = maps(per_env@);
    let mut found = false;
    let mut can_true = false;
    let mut can_false = false;
    let mut can_error = false;
    let mut kept = false;
    let mut i: usize = 0;
    while i < per_env.len()
        invariant
            i <= per_env@.len(),
            ms == maps(per_env@),
            rights_fit(conjunctive@),
            span.fits(),
            forall|k: int|
                0 <= k < i ==> if (#[trigger] ms[k]).contains_key(*span) {
                    !ms[k][*span].literal
                } else {
                    skipped(ms[k], conjunctive@, *span)
                },
            found == exists|k: int| 0 <= k < i && (#[trigger] ms[k]).contains_key(*span),
            can_true == exists|k: int|
                0 <= k < i && (#[trigger] ms[k]).contains_key(*span) && ms[k][*span].set.can_true,
            can_false == exists|k: int|
                0 <= k < i && (#[trigger] ms[k]).contains_key(*span) && ms[k][*span].set.can_false,
            can_error == exists|k: int|
                0 <= k < i && (#[trigger] ms[k]).contains_key(*span) && ms[k][*span].set.can_error,
            kept == exists|k: int|
                0 <= k < i && (#[trigger] ms[k]).contains_key(*span) && ms[k][*span].kept,
        decreases per_env@.len() - i,
    {
        assert(ms[i as int] == per_env@[i as int]@);
        match per_env[i].get(span) {
            Some(o) => {
                if o.literal {
                    return None;
                }
                found = true;
                can_true = can_true || o.set.can_true;
                can_false = can_false || o.set.can_false;
                can_error = can_error || o.set.can_error;
                kept = kept || o.kept;
            },
            None => {
                if !is_skipped(&per_env[i], conjunctive, span) {
                    return None;
                }
            },
        }
        i += 1;
    }
    if !found {
        return None;
    }
    let can_be_false = can_false || kept;
    assert(never_true(ms, *span) == !can_true);
    assert(never_false(ms, *span) == !can_be_false);
    if can_true && can_be_false {
        None
    } else if !can_true && !can_be_false {
        Some((FindingKind::AlwaysError, can_error))
    } else if !can_true {
        Some((FindingKind::NeverTrue, can_error))
    } else {
        Some((FindingKind::NeverFalse, can_error))
    }
}

/// The findings of one policy from its per-environment outcome sets.
///
/// A span is judged over the environments in which it is evaluated. An
/// environment that does not evaluate it is *ignored* for it when the span
/// lies in the right operand of a conjunction whose left operand can never
/// be true there: the policy is false in that environment (a scope it cannot
/// satisfy, or a conjunct that is never true) and what follows does not run.
/// The conjunct that made it false is judged like any other node, in every
/// environment that evaluates it. An environment that does not evaluate the
/// span for any other reason (the typechecker folded it away as true, a
/// disjunction short-circuited) blocks the finding: a warning speaks for
/// every environment. Literals the user wrote are not reported, nor is a
/// guard kept in any environment reported as never false.
pub fn analyze(per_env: &Vec<SpanTable>, conjunctive: &Vec<Conjunction>) -> (r: Vec<Finding>)
    requires
        forall|i: int| 0 <= i < per_env@.len() ==> (#[trigger] per_env@[i]).spans_fit(),
        rights_fit(conjunctive@),
    ensures
        are_findings(r@, maps(per_env@), conjunctive@),
{
    let spans = all_spans(per_env);
    let mut findings: Vec<Finding> = Vec::new();
    let ghost ms = maps(per_env@);
    let mut i: usize = 0;
    while i < spans.len()
        invariant
            i <= spans@.len(),
            ms == maps(per_env@),
            rights_fit(conjunctive@),
            in_order(spans@),
            all_fit(spans@),
            forall|s: Span| #[trigger] spans@.contains(s) <==> seen(ms, s),
            forall|k: int|
                0 <= k < findings@.len() ==> {
                    let span = (#[trigger] findings@[k]).span();
                    &&& reported(ms, conjunctive@, span)
                    &&& findings@[k].kind == kind_of(ms, span)
                    &&& findings@[k].message@ == message_of(
                        kind_of(ms, span),
                        may_err(ms, span),
                    )
                    &&& exists|p: int| 0 <= p < i && #[trigger] spans@[p] == span
                },
            forall|k: int, l: int|
                0 <= k < l < findings@.len() ==> (#[trigger] findings@[k]).span().before(
                    (#[trigger] findings@[l]).span(),
                ),
            forall|p: int|
                0 <= p < i && determined(ms, conjunctive@, #[trigger] spans@[p]) ==> exists|
                    k: int,
                |
                    0 <= k < findings@.len() && spans@[p].encloses(
                        (#[trigger] findings@[k]).span(),
                    ),
        decreases spans@.len() - i,
    {
        let span = spans[i];
        let ghost was = findings@;
        match judge(per_env, conjunctive, &span) {
            None => {},
            Some((kind, can_error)) => {
                let mut inner = false;
                let mut k: usize = 0;
                while k < findings.len()
                    invariant
                        k <= findings@.len(),
                        findings@ == was,
                        span.fits(),
                        forall|q: int|
                            0 <= q < findings@.len() ==> (#[trigger] findings@[q]).span().fits(),
                        inner == exists|q: int|
                            0 <= q < k && span.encloses((#[trigger] findings@[q]).span()),
                    decreases findings@.len() - k,
                {
                    let at = Span { offset: findings[k].offset, length: findings[k].length };
                    assert(at == findings@[k as int].span());
                    if span.contains(&at) {
                        inner = true;
                    }
                    k += 1;
                }
                if !inner {
                    proof {
                        assert forall|s: Span| #[trigger] determined(ms, conjunctive@, s)
                            && span.encloses(s) implies s == span by {
                            if s != span {
                                assert(seen(ms, s));
                                assert(spans@.contains(s));
                                let p = choose|p: int| 0 <= p < spans@.len() && spans@[p] == s;
                                assert(s.before(span));
                                assert(p < i) by {
                                    if p > i {
                                        assert(spans@[i as int].before(spans@[p]));
                                    }
                                }
                                let q = choose|q: int|
                                    0 <= q < was.len() && spans@[p].encloses(
                                        (#[trigger] was[q]).span(),
                                    );
                                assert(span.encloses(was[q].span()));
                            }
                        }
                        assert(reported(ms, conjunctive@, span));
                    }
                    findings.push(
                        Finding {
                            offset: span.offset,
                            length: span.length,
                            kind,
                            message: message(kind, can_error),
                        },
                    );
                    proof {
                        assert(findings@[was.len() as int].span() == span);
                        assert forall|k: int, l: int|
                            0 <= k < l < findings@.len() implies (
                        #[trigger] findings@[k]).span().before(
                            (#[trigger] findings@[l]).span(),
                        ) by {
                            assert(findings@[k] == was[k]);
                            if l == was.len() {
                                let p = choose|p: int|
                                    0 <= p < i && #[trigger] spans@[p] == was[k].span();
                                assert(spans@[p].before(spans@[i as int]));
                            }
                        }
                    }
                }
            },
        }
        proof {
            assert forall|p: int|
                0 <= p < i + 1 && determined(ms, conjunctive@, #[trigger] spans@[p]) implies exists|
                k: int,
            |
                0 <= k < findings@.len() && spans@[p].encloses((#[trigger] findings@[k]).span()) by {
                if p < i {
                    let q = choose|q: int|
                        0 <= q < was.len() && spans@[p].encloses((#[trigger] was[q]).span());
                    assert(findings@[q] == was[q]);
                }
            }
            assert forall|k: int| 0 <= k < findings@.len() implies exists|p: int|
                0 <= p < i + 1 && #[trigger] spans@[p] == (#[trigger] findings@[k]).span() by {
                if k < was.len() {
                    assert(findings@[k] == was[k]);
                    let p = choose|p: int| 0 <= p < i && #[trigger] spans@[p] == was[k].span();
                    assert(spans@[p] == findings@[k].span());
                } else {
                    assert(spans@[i as int] == findings@[k].span());
                }
            }
        }
        i += 1;
    }
    proof {
        assert forall|span: Span| #[trigger] reported(ms, conjunctive@, span) implies exists|
            k: int,
        |
            0 <= k < findings@.len() && (#[trigger] findings@[k]).span() == span by {
            assert(seen(ms, span));
            assert(spans@.contains(span));
            let p = choose|p: int| 0 <= p < spans@.len() && spans@[p] == span;
            assert(determined(ms, conjunctive@, spans@[p]));
            let k = choose|k: int|
                0 <= k < findings@.len() && spans@[p].encloses((#[trigger] findings@[k]).span());
            assert(reported(ms, conjunctive@, findings@[k].span()));
            assert(determined(ms, conjunctive@, findings@[k].span()));
        }
    }
    findings
}

/// The innermost cause is reported: no finding lies within another.
pub proof fn law_findings_do_not_nest(
    findings: Seq<Finding>,
    per_env: Seq<Map<Span, Observed>>,
    conjunctive: Seq<Conjunction>,
    i: int,
    j: int,
)
    requires
        are_findings(findings, per_env, conjunctive),
        0 <= i < findings.len(),
        0 <= j < findings.len(),
        findings[i].span().encloses(findings[j].span()),
    ensures
        i == j,
{
    assert(reported(per_env, conjunctive, findings[i].span()));
    assert(determined(per_env, conjunctive, findings[j].span()));
    assert(findings[i].span() == findings[j].span());
    if i < j {
        assert(findings[i].span().before(findings[j].span()));
    }
    if j < i {
        assert(findings[j].span().before(findings[i].span()));
    }
}

/// Every span that is determined is reported, or a span within it is: a
/// finding stands for the spans around it.
pub proof fn law_determined_spans_are_explained(
    findings: Seq<Finding>,
    per_env: Seq<Map<Span, Observed>>,
    conjunctive: Seq<Conjunction>,
    span: Span,
)
    requires
        are_findings(findings, per_env, conjunctive),
        determined(per_env, conjunctive, span),
    ensures
        exists|i: int|
            0 <= i < findings.len() && span.encloses((#[trigger] findings[i]).span()),
    decreases span.end(), span.length,
{
    if reported(per_env, conjunctive, span) {
        let i = choose|i: int| 0 <= i < findings.len() && (#[trigger] findings[i]).span() == span;
        assert(span.encloses(findings[i].span()));
    } else {
        let inner = choose|inner: Span| #[trigger]
            determined(per_env, conjunctive, inner) && span.encloses(inner) && inner != span;
        law_determined_spans_are_explained(findings, per_env, conjunctive, inner);
        let i = choose|i: int|
            0 <= i < findings.len() && inner.encloses((#[trigger] findings[i]).span());
        assert(span.encloses(findings[i].span()));
    }
}

/// A guard that some environment keeps is never reported as never false.
pub proof fn law_kept_guard_is_reported_only_as_never_true(
    findings: Seq<Finding>,
    per_env: Seq<Map<Span, Observed>>,
    conjunctive: Seq<Conjunction>,
    i: int,
    env: int,
)
    requires
        are_findings(findings, per_env, conjunctive),
        0 <= i < findings.len(),
        0 <= env < per_env.len(),
        per_env[env].contains_key(findings[i].span()),
        per_env[env][findings[i].span()].kept,
    ensures
        findings[i].kind == FindingKind::NeverTrue,
{
    let span = findings[i].span();
    assert(reported(per_env, conjunctive, span));
    assert(!never_false(per_env, span));
}

/// A finding speaks for every environment: in each, the span is evaluated and
/// cannot be what the finding says it can never be, or the policy is false
/// before the span is reached.
pub proof fn law_finding_holds_in_every_environment(
    findings: Seq<Finding>,
    per_env: Seq<Map<Span, Observed>>,
    conjunctive: Seq<Conjunction>,
    i: int,
    env: int,
)
    requires
        are_findings(findings, per_env, conjunctive),
        0 <= i < findings.len(),
        0 <= env < per_env.len(),
    ensures
        ({
            let m = per_env[env];
            let span = findings[i].span();
            if m.contains_key(span) {
                &&& !m[span].literal
                &&& findings[i].kind != FindingKind::NeverFalse ==> !m[span].set.can_true
                &&& findings[i].kind != FindingKind::NeverTrue ==> !m[span].set.can_false
            } else {
                skipped(m, conjunctive, span)
            }
        }),
{
    let span = findings[i].span();
    assert(reported(per_env, conjunctive, span));
    assert(per_env[env].contains_key(span) || !per_env[env].contains_key(span));
}

/// What was observed, where the root is the policy: when the typechecker
/// folded the whole condition to a literal, that literal *is* the policy (its
/// location is the policy's), a finding and not a literal the user wrote.
pub open spec fn settled(observed: Seq<Obs>, loc: Option<Loc>) -> Seq<Obs> {
    if observed.len() > 0 && (observed.last().literal || observed.last().loc is None) {
        observed.drop_last().push(
            Obs {
                loc,
                literal: false,
                outcomes: observed.last().outcomes,
                kept: observed.last().kept,
            },
        )
    } else {
        observed
    }
}

/// The outcome sets of the visited nodes of a policy's condition, by span;
/// `loc` is where the policy is. A literal the user wrote is its own
/// explanation and is not a node to report; it is still recorded, flagged.
pub fn outcomes_by_span(observed: &Vec<NodeOutcome>, loc: &Option<Loc>) -> (r: SpanTable)
    ensures
        r@ == by_span(settled(views(observed@), *loc)),
        r.spans_fit(),
{
    let mut table = SpanTable::new();
    let ghost all = settled(views(observed@), *loc);
    let mut i: usize = 0;
    while i < observed.len()
        invariant
            i <= observed@.len(),
            all == settled(views(observed@), *loc),
            table@ == by_span(all.take(i as int)),
            table.spans_fit(),
        decreases observed@.len() - i,
    {
        let o = &observed[i];
        let root = i + 1 == observed.len() && (o.literal || o.loc.is_none());
        proof {
            assert(all.take(i + 1).drop_last() =~= all.take(i as int));
            assert(views(observed@)[i as int] == o@);
        }
        let at = if root {
            loc
        } else {
            &o.loc
        };
        if let Some(l) = at {
            let span = Span::of(l);
            let seen = Observed {
                set: OutcomeSet::of(&o.outcomes),
                literal: o.literal && !root,
                kept: o.kept,
            };
            table.put(span, seen);
        }
        i += 1;
    }
    assert(all.take(i as int) =~= all);
    table
}

/// What each environment observed, by span.
pub open spec fn tables(observed: Seq<Vec<NodeOutcome>>, loc: Option<Loc>) -> Seq<
    Map<Span, Observed>,
> {
    observed.map_values(|o: Vec<NodeOutcome>| by_span(settled(views(o@), loc)))
}

/// The findings of a policy whose condition is `condition`, from what the
/// evaluation in each environment observed.
pub fn policy_findings(
    policy: &Policy,
    condition: &Expr<()>,
    observed: &Vec<Vec<NodeOutcome>>,
) -> (r: Vec<Finding>)
    ensures
        are_findings(r@, tables(observed@, policy.loc), conjunctions_of(*condition)),
{
    let mut conjunctive: Vec<Conjunction> = Vec::new();
    conjunctions(condition, &mut conjunctive);
    assert(conjunctive@ =~= conjunctions_of(*condition));
    let mut per_env: Vec<SpanTable> = Vec::new();
    let mut i: usize = 0;
    while i < observed.len()
        invariant
            i <= observed@.len(),
            per_env@.len() == i,
            forall|k: int|
                0 <= k < i ==> (#[trigger] per_env@[k]).spans_fit() && per_env@[k]@ == tables(
                    observed@,
                    policy.loc,
                )[k],
        decreases observed@.len() - i,
    {
        per_env.push(outcomes_by_span(&observed[i], &policy.loc));
        i += 1;
    }
    assert(maps(per_env@) =~= tables(observed@, policy.loc));
    analyze(&per_env, &conjunctive)
}

} // verus!
