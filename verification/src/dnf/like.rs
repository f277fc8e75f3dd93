//! `x like "exact"` is `x == "exact"`.
//!
//! A `like` whose pattern has no wildcard matches exactly one string, so it
//! is an equality in disguise; rewriting it lets the string atoms of a cube
//! be either equalities or genuine pattern constraints: every `like` left has
//! at least one wildcard, and so is matched by at least two strings.
//!
//! Soundness needs the operand to be a string or to error: `like` on a
//! non-string *value* is a type error, while `==` against a string literal
//! is `false`. Validated expressions satisfy this; the rewrite itself is
//! purely syntactic.

use std::sync::Arc;

use smol_str::SmolStr;
use vstd::prelude::*;

use crate::ast::{BinaryOp, Expr, ExprKind, PatternElem, Prim, UnaryOp};
use crate::expr_util::rebuild;
use crate::model::{Value, World};
use crate::tree::{Atomic, Op, Tree};

use super::{node, DnfError};

verus! {

/// The string that holds `chars`.
///
/// Collects the characters into a `SmolStr` by its `FromIterator<char>`,
/// which appends them one after the other, and hands out its text.
#[verifier::external_body]
fn collect_string(chars: &Vec<char>) -> (r: String)
    ensures
        r@ == chars@,
{
    String::from(SmolStr::from_iter(chars.iter().copied()))
}

/// `p` has a wildcard.
pub open spec fn has_wildcard(p: Seq<PatternElem>) -> bool {
    exists|i: int| 0 <= i < p.len() && #[trigger] p[i] == PatternElem::Wildcard
}

/// The characters of `p`, without the wildcards.
pub open spec fn chars_of(p: Seq<PatternElem>) -> Seq<char>
    decreases p.len(),
{
    if p.len() == 0 {
        seq![]
    } else {
        match p.last() {
            PatternElem::Char(c) => chars_of(p.drop_last()).push(c),
            PatternElem::Wildcard => chars_of(p.drop_last()),
        }
    }
}

/// The string a wildcard-free pattern matches, if the pattern is one.
fn exact_string(elems: &Vec<PatternElem>) -> (r: Option<String>)
    ensures
        match r {
            Some(s) => !has_wildcard(elems@) && s@ == chars_of(elems@),
            None => has_wildcard(elems@),
        },
{
    let mut chars: Vec<char> = Vec::new();
    let mut i: usize = 0;
    assert(elems@.take(0) =~= seq![]);
    while i < elems.len()
        invariant
            i <= elems@.len(),
            forall|j: int| 0 <= j < i ==> #[trigger] elems@[j] != PatternElem::Wildcard,
            chars@ =~= chars_of(elems@.take(i as int)),
        decreases elems@.len() - i,
    {
        assert(elems@.take(i + 1).drop_last() =~= elems@.take(i as int));
        match elems[i] {
            PatternElem::Char(c) => {
                chars.push(c);
            },
            PatternElem::Wildcard => {
                assert(elems@[i as int] == PatternElem::Wildcard);
                return None;
            },
        }
        i += 1;
    }
    assert(elems@.take(i as int) =~= elems@);
    Some(collect_string(&chars))
}

impl Tree {
    /// The tree with every `x like p` whose pattern has no wildcard replaced
    /// by `x == "p"`.
    pub open spec fn unlike(self) -> Tree
        decreases self,
    {
        let kids = Tree::unlike_all(self.kids);
        match self.op {
            Op::Like(p) => if !has_wildcard(p) && kids.len() == 1 {
                Tree::binary(
                    BinaryOp::Eq,
                    kids[0],
                    Tree { op: Op::Lit(Atomic::Str(chars_of(p))), kids: seq![] },
                )
            } else {
                Tree { op: self.op, kids }
            },
            _ => Tree { op: self.op, kids },
        }
    }

    /// [`Tree::unlike`] of each of `ts`.
    pub open spec fn unlike_all(ts: Seq<Tree>) -> Seq<Tree>
        decreases ts,
    {
        if ts.len() == 0 {
            seq![]
        } else {
            Tree::unlike_all(ts.drop_last()).push(ts.last().unlike())
        }
    }

    /// Every `like` has a wildcard.
    pub open spec fn likes_have_wildcards(self) -> bool
        decreases self,
    {
        &&& self.op matches Op::Like(p) ==> has_wildcard(p)
        &&& forall|i: int|
            0 <= i < self.kids.len() ==> (#[trigger] self.kids[i]).likes_have_wildcards()
    }
}

/// `r` has the source locations of `e` on the nodes they have in common.
pub open spec fn keeps_locs(e: &Expr<()>, r: &Expr<()>) -> bool
    decreases e,
    via keeps_locs_terminates
{
    &&& r.loc == e.loc
    &&& r.kids().len() >= e.kids().len()
    &&& forall|i: int|
        0 <= i < e.kids().len() ==> keeps_locs(&#[trigger] e.kids()[i], &r.kids()[i])
}

#[via_fn]
proof fn keeps_locs_terminates(e: &Expr<()>, r: &Expr<()>) {
    assert forall|i: int| 0 <= i < e.kids().len() implies decreases_to!(
        e => #[trigger] e.kids()[i]
    ) by {
        e.lemma_kid_decreases(i);
    }
}

/// Rewrites every `x like p` whose pattern `p` has no wildcard into
/// `x == "<p>"`, bottom-up; everything else is unchanged (source locations
/// included).
pub fn rewrite_like(e: &Expr<()>) -> (r: Result<Expr<()>, DnfError>)
    ensures
        r matches Ok(x) && x.tree() == e.tree().unlike() && keeps_locs(e, &x),
    decreases e,
{
    let n = e.kid_count();
    let mut kids: Vec<Expr<()>> = Vec::new();
    let mut i: usize = 0;
    assert(e.tree().kids.take(0) =~= seq![]);
    while i < n
        invariant
            i <= n,
            n == e.kids().len(),
            kids@.len() == i,
            crate::ast::trees(kids@) =~= Tree::unlike_all(e.tree().kids.take(i as int)),
            forall|j: int| 0 <= j < i ==> keeps_locs(&#[trigger] e.kids()[j], &kids@[j]),
        decreases n - i,
    {
        let ghost before = crate::ast::trees(kids@);
        assert(e.tree().kids.take(i + 1).drop_last() =~= e.tree().kids.take(i as int));
        let k = rewrite_like(e.kid(i))?;
        kids.push(k);
        assert(crate::ast::trees(kids@) =~= before.push(k.tree()));
        i += 1;
    }
    assert(e.tree().kids.take(n as int) =~= e.tree().kids);
    let rebuilt = rebuild(e, kids, ());
    if let ExprKind::Like { expr, pattern } = &rebuilt.kind {
        assert(rebuilt.tree().kids[0] == expr.tree());
        if let Some(s) = exact_string(pattern) {
            let lit = node(ExprKind::Lit(Prim::String(s)));
            assert(lit.tree().kids =~= seq![]);
            let arg1 = crate::ast::share(expr);
            let x = Expr {
                kind: ExprKind::BinaryApp { op: BinaryOp::Eq, arg1, arg2: Arc::new(lit) },
                loc: rebuilt.loc,
                data: (),
            };
            assert(x.tree().kids =~= seq![expr.tree(), lit.tree()]);
            assert(rebuilt.kids()[0] == *expr);
            assert(x.kids()[0] == *expr);
            return Ok(x);
        }
    }
    Ok(rebuilt)
}

/// Whether every `like` in `e` has at least one wildcard, which is what
/// [`rewrite_like`] guarantees of its result.
pub fn likes_have_wildcards(e: &Expr<()>) -> (r: bool)
    ensures
        r == e.tree().likes_have_wildcards(),
    decreases e,
{
    if let ExprKind::Like { pattern, .. } = &e.kind {
        let mut found = false;
        let mut i: usize = 0;
        while i < pattern.len()
            invariant
                i <= pattern@.len(),
                found == exists|j: int| 0 <= j < i && #[trigger] pattern@[j] == PatternElem::Wildcard,
            decreases pattern@.len() - i,
        {
            if pattern[i] == PatternElem::Wildcard {
                found = true;
            }
            i += 1;
        }
        if !found {
            assert(!has_wildcard(pattern@));
            return false;
        }
    }
    let n = e.kid_count();
    let mut i: usize = 0;
    while i < n
        invariant
            i <= n,
            n == e.kids().len(),
            forall|j: int| 0 <= j < i ==> (#[trigger] e.tree().kids[j]).likes_have_wildcards(),
        decreases n - i,
    {
        if !likes_have_wildcards(e.kid(i)) {
            return false;
        }
        i += 1;
    }
    true
}

proof fn lemma_unlike_all_len(ts: Seq<Tree>)
    ensures
        Tree::unlike_all(ts).len() == ts.len(),
    decreases ts.len(),
{
    if ts.len() > 0 {
        lemma_unlike_all_len(ts.drop_last());
    }
}

proof fn lemma_unlike_all_at(ts: Seq<Tree>, i: int)
    requires
        0 <= i < ts.len(),
    ensures
        Tree::unlike_all(ts).len() == ts.len(),
        Tree::unlike_all(ts)[i] == ts[i].unlike(),
    decreases ts.len(),
{
    lemma_unlike_all_len(ts);
    lemma_unlike_all_len(ts.drop_last());
    if i < ts.len() - 1 {
        lemma_unlike_all_at(ts.drop_last(), i);
    }
}

proof fn lemma_unlike_wild(t: Tree)
    requires
        t.shaped(),
    ensures
        t.unlike().likes_have_wildcards(),
    decreases t,
{
    let kids = Tree::unlike_all(t.kids);
    lemma_unlike_all_len(t.kids);
    assert forall|i: int| 0 <= i < kids.len() implies (
    #[trigger] kids[i]).likes_have_wildcards() by {
        lemma_unlike_all_at(t.kids, i);
        assert(t.kids[i].shaped());
        lemma_unlike_wild(t.kids[i]);
    }
    if t.op is Like && !has_wildcard(t.op->Like_0) {
        let lit = Tree { op: Op::Lit(Atomic::Str(chars_of(t.op->Like_0))), kids: seq![] };
        let r = Tree::binary(BinaryOp::Eq, kids[0], lit);
        assert(lit.likes_have_wildcards());
        assert forall|i: int| 0 <= i < r.kids.len() implies (
        #[trigger] r.kids[i]).likes_have_wildcards() by {}
    }
}

/// After the rewrite, every `like` has a wildcard.
pub proof fn law_rewrite_like_leaves_wildcards(e: &Expr<()>)
    ensures
        e.tree().unlike().likes_have_wildcards(),
{
    e.lemma_tree_shaped();
    lemma_unlike_wild(e.tree());
}

/// The rewrite keeps expressions well formed.
pub proof fn law_rewrite_like_keeps_order(t: Tree)
    requires
        t.wf(),
    ensures
        t.unlike().wf(),
    decreases t,
{
    let kids = Tree::unlike_all(t.kids);
    lemma_unlike_all_len(t.kids);
    assert forall|i: int| 0 <= i < kids.len() implies (#[trigger] kids[i]).wf() by {
        lemma_unlike_all_at(t.kids, i);
        law_rewrite_like_keeps_order(t.kids[i]);
    }
    if t.op is Like && !has_wildcard(t.op->Like_0) {
        let lit = Tree { op: Op::Lit(Atomic::Str(chars_of(t.op->Like_0))), kids: seq![] };
        let r = Tree::binary(BinaryOp::Eq, kids[0], lit);
        assert(lit.wf());
        assert forall|i: int| 0 <= i < r.kids.len() implies (#[trigger] r.kids[i]).wf() by {}
    }
}

/// A tree whose `like`s have wildcards stays as it is.
proof fn lemma_unlike_same(t: Tree)
    requires
        t.shaped(),
        t.likes_have_wildcards(),
    ensures
        t.unlike() == t,
    decreases t,
{
    let kids = Tree::unlike_all(t.kids);
    lemma_unlike_all_len(t.kids);
    assert forall|i: int| 0 <= i < kids.len() implies #[trigger] kids[i] == t.kids[i] by {
        lemma_unlike_all_at(t.kids, i);
        assert(t.kids[i].shaped() && t.kids[i].likes_have_wildcards());
        lemma_unlike_same(t.kids[i]);
    }
    assert(kids =~= t.kids);
}

/// The rewrite changes exactly the expressions that hold a `like` without a
/// wildcard.
pub proof fn law_rewrite_like_changes_what_is_refused(e: &Expr<()>)
    ensures
        e.tree().likes_have_wildcards() <==> e.tree().unlike() == e.tree(),
{
    law_rewrite_like_leaves_wildcards(e);
    if e.tree().likes_have_wildcards() {
        e.lemma_tree_shaped();
        lemma_unlike_same(e.tree());
    }
}

proof fn lemma_chars_first(p: Seq<PatternElem>)
    requires
        p.len() > 0,
    ensures
        chars_of(p) == (match p[0] {
            PatternElem::Char(c) => seq![c] + chars_of(p.drop_first()),
            PatternElem::Wildcard => chars_of(p.drop_first()),
        }),
    decreases p.len(),
{
    if p.len() == 1 {
        assert(p.drop_last() =~= seq![]);
        assert(p.drop_first() =~= seq![]);
    } else {
        lemma_chars_first(p.drop_last());
        assert(p.drop_last().drop_first() =~= p.drop_first().drop_last());
        assert(p.drop_first().last() == p.last());
    }
    assert(chars_of(p) =~= (match p[0] {
        PatternElem::Char(c) => seq![c] + chars_of(p.drop_first()),
        PatternElem::Wildcard => chars_of(p.drop_first()),
    }));
}

/// A pattern without a wildcard matches exactly one string.
pub proof fn law_exact_pattern(p: Seq<PatternElem>, s: Seq<char>)
    requires
        !has_wildcard(p),
    ensures
        crate::model::pattern_matches(p, s) == (s == chars_of(p)),
    decreases p.len(),
{
    if p.len() > 0 {
        lemma_chars_first(p);
        let rest = p.drop_first();
        assert(p[0] != PatternElem::Wildcard);
        assert(!has_wildcard(rest)) by {
            if has_wildcard(rest) {
                let i = choose|i: int| 0 <= i < rest.len() && #[trigger] rest[i]
                    == PatternElem::Wildcard;
                assert(p[i + 1] == PatternElem::Wildcard);
            }
        }
        let c = p[0]->Char_0;
        if s.len() > 0 {
            law_exact_pattern(rest, s.drop_first());
            if s[0] == c && s.drop_first() == chars_of(rest) {
                assert(s =~= seq![c] + chars_of(rest));
            }
            if s == chars_of(p) {
                assert(s.drop_first() =~= chars_of(rest));
            }
        } else {
            assert(chars_of(p).len() > 0);
        }
    } else {
        assert(s.len() == 0 ==> s =~= seq![]);
    }
}

/// A string that `p` matches: `n` characters for its first wildcard, and none
/// for the others.
spec fn filled(p: Seq<PatternElem>, n: nat) -> Seq<char>
    decreases p.len(),
{
    if p.len() == 0 {
        seq![]
    } else {
        match p[0] {
            PatternElem::Char(c) => seq![c] + filled(p.drop_first(), n),
            PatternElem::Wildcard => Seq::new(n, |i: int| 'a') + filled(p.drop_first(), 0),
        }
    }
}

proof fn lemma_filled(p: Seq<PatternElem>, n: nat)
    ensures
        crate::model::pattern_matches(p, filled(p, n)),
        filled(p, n).len() == filled(p, 0).len() + if has_wildcard(p) {
            n
        } else {
            0
        },
    decreases p.len(), n,
{
    if p.len() > 0 {
        let rest = p.drop_first();
        match p[0] {
            PatternElem::Char(c) => {
                lemma_filled(rest, n);
                lemma_filled(rest, 0);
                assert(filled(p, n).drop_first() =~= filled(rest, n));
                assert(has_wildcard(p) == has_wildcard(rest)) by {
                    if has_wildcard(rest) {
                        let i = choose|i: int| 0 <= i < rest.len() && #[trigger] rest[i]
                            == PatternElem::Wildcard;
                        assert(p[i + 1] == PatternElem::Wildcard);
                    }
                    if has_wildcard(p) {
                        let i = choose|i: int| 0 <= i < p.len() && #[trigger] p[i]
                            == PatternElem::Wildcard;
                        assert(rest[i - 1] == PatternElem::Wildcard);
                    }
                }
            },
            PatternElem::Wildcard => {
                assert(has_wildcard(p));
                if n == 0 {
                    lemma_filled(rest, 0);
                    assert(filled(p, 0) =~= filled(rest, 0));
                } else {
                    lemma_filled(p, (n - 1) as nat);
                    assert(filled(p, n).drop_first() =~= filled(p, (n - 1) as nat));
                }
            },
        }
    }
}

/// A pattern with a wildcard matches at least two strings.
pub proof fn law_wildcard_pattern_matches_two(p: Seq<PatternElem>) -> (r: (Seq<char>, Seq<char>))
    requires
        has_wildcard(p),
    ensures
        r.0 != r.1,
        crate::model::pattern_matches(p, r.0),
        crate::model::pattern_matches(p, r.1),
{
    lemma_filled(p, 0);
    lemma_filled(p, 1);
    (filled(p, 0), filled(p, 1))
}

proof fn lemma_unlike_eval(t: Tree, w: World)
    requires
        t.shaped(),
        t.typed(w),
    ensures
        t.unlike().eval(w) == t.eval(w),
    decreases t,
{
    let kids = Tree::unlike_all(t.kids);
    let mid = Tree { op: t.op, kids };
    lemma_unlike_all_len(t.kids);
    if t.kids.len() > 0 {
        lemma_unlike_all_at(t.kids, 0);
        assert(t.kids[0].shaped());
    }
    if t.kids.len() > 1 {
        lemma_unlike_all_at(t.kids, 1);
        assert(t.kids[1].shaped());
    }
    if t.kids.len() > 2 {
        lemma_unlike_all_at(t.kids, 2);
        assert(t.kids[2].shaped());
    }
    if t.op is Lit || t.op is Var {
    } else if t.op == Op::And && t.kids.len() == 2 {
        lemma_unlike_eval(t.kids[0], w);
        if t.kids[0].eval(w) == Ok::<Value, int>(Value::Bool(true)) {
            lemma_unlike_eval(t.kids[1], w);
        }
    } else if t.op == Op::Or && t.kids.len() == 2 {
        lemma_unlike_eval(t.kids[0], w);
        if t.kids[0].eval(w) == Ok::<Value, int>(Value::Bool(false)) {
            lemma_unlike_eval(t.kids[1], w);
        }
    } else if t.op == Op::Unary(UnaryOp::Not) && t.kids.len() == 1 {
        lemma_unlike_eval(t.kids[0], w);
    } else if t.op == Op::If && t.kids.len() == 3 {
        lemma_unlike_eval(t.kids[0], w);
        if t.kids[0].eval(w) == Ok::<Value, int>(Value::Bool(true)) {
            lemma_unlike_eval(t.kids[1], w);
        }
        if t.kids[0].eval(w) == Ok::<Value, int>(Value::Bool(false)) {
            lemma_unlike_eval(t.kids[2], w);
        }
    } else if t.is_iferror() && t.kids.len() == 2 {
        lemma_unlike_eval(t.kids[0], w);
        if t.kids[0].eval(w) is Err {
            lemma_unlike_eval(t.kids[1], w);
        }
    } else {
        lemma_unlike_all_eval(t.kids, w);
        if t.op is Like && !has_wildcard(t.op->Like_0) {
            let p = t.op->Like_0;
            let lit = Tree { op: Op::Lit(Atomic::Str(chars_of(p))), kids: seq![] };
            let r = Tree::binary(BinaryOp::Eq, kids[0], lit);
            assert(t.kids.drop_last() =~= seq![]);
            assert(Tree::eval_all(t.kids.drop_last(), w) == Ok::<Seq<Value>, int>(seq![]));
            assert(t.kids.last() == t.kids[0]);
            assert(Tree::typed_all(t.kids, w));
            assert(t.kids[0].typed(w));
            lemma_unlike_eval(t.kids[0], w);
            match t.kids[0].eval(w) {
                Ok(v) => {
                    Tree::lemma_binary_eval(BinaryOp::Eq, kids[0], lit, w);
                    assert(Tree::eval_all(t.kids, w) == Ok::<Seq<Value>, int>(
                        Seq::<Value>::empty().push(v),
                    ));
                    let vs = Seq::<Value>::empty().push(v);
                    assert(vs[0] == v);
                    assert(w.operands_fit(t.op, vs));
                    let s = v->Str_0;
                    law_exact_pattern(p, s);
                },
                Err(e) => {
                    Tree::lemma_eval_all_prefix(r.kids, 0, w);
                    assert(r.kids.take(0) =~= seq![]);
                    assert(r.kids[0] == kids[0]);
                },
            }
        }
    }
}

proof fn lemma_unlike_all_eval(ts: Seq<Tree>, w: World)
    requires
        forall|i: int| 0 <= i < ts.len() ==> (#[trigger] ts[i]).shaped(),
        Tree::typed_all(ts, w),
    ensures
        Tree::eval_all(Tree::unlike_all(ts), w) == Tree::eval_all(ts, w),
    decreases ts,
{
    if ts.len() > 0 {
        let front = ts.drop_last();
        assert forall|i: int| 0 <= i < front.len() implies (#[trigger] front[i]).shaped() by {
            assert(ts[i].shaped());
        }
        assert(ts[ts.len() - 1].shaped());
        lemma_unlike_all_eval(front, w);
        let all = Tree::unlike_all(ts);
        assert(all.drop_last() =~= Tree::unlike_all(front));
        if Tree::eval_all(front, w) is Ok {
            lemma_unlike_eval(ts.last(), w);
        }
    }
}

/// The rewrite preserves evaluation on every input on which the operands of
/// `like` are strings or err (and evaluation is otherwise well typed).
pub proof fn law_rewrite_like_preserves_evaluation(e: &Expr<()>, w: World)
    requires
        e.tree().typed(w),
    ensures
        e.tree().unlike().eval(w) == e.tree().eval(w),
{
    e.lemma_tree_shaped();
    lemma_unlike_eval(e.tree(), w);
}

} // verus!
