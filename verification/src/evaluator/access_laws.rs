//! Which accesses of an expression are existence-sensitive, what a missing
//! receiver adds, and which receivers are known to exist.

use vstd::prelude::*;

use crate::ast::{BinaryOp, UnaryOp};
use crate::evaluator::compile::{Existence, Mode, Sym};
use crate::evaluator::guards::{at_path, type_declares};
use crate::evaluator::term::Term;
use crate::tree::{Op, Tree};

verus! {

/// A missing receiver of the access can make the atom an error, and nothing
/// else.
pub open spec fn adds_error(c: Existence) -> bool {
    !c.adds.can_true && !c.adds.can_false && c.adds.can_error
}

/// A missing receiver of the access can make the atom the boolean `b`, and
/// nothing else.
pub open spec fn adds_bool(c: Existence, b: bool) -> bool {
    c.adds.can_true == b && c.adds.can_false == !b && !c.adds.can_error
}

/// A missing receiver of the access can make the atom anything.
pub open spec fn adds_all(c: Existence) -> bool {
    c.adds.can_true && c.adds.can_false && c.adds.can_error
}

/// What an access of an expression without `has` and `iferror` adds, where it
/// stands plainly or under an `iferror`.
spec fn adds_as(c: Existence, mode: Mode) -> bool {
    match mode {
        Mode::Plain => adds_error(c),
        Mode::Coalesced(Some(b)) => adds_bool(c, b),
        Mode::Coalesced(None) => adds_all(c),
    }
}

spec fn all_add(cs: Seq<Existence>, mode: Mode) -> bool {
    forall|i: int| 0 <= i < cs.len() ==> adds_as(#[trigger] cs[i], mode)
}

proof fn lemma_all_add(a: Seq<Existence>, b: Seq<Existence>, mode: Mode)
    requires
        all_add(a, mode),
        all_add(b, mode),
    ensures
        all_add(a + b, mode),
{
    assert forall|i: int| 0 <= i < (a + b).len() implies adds_as(#[trigger] (a + b)[i], mode) by {
        if i < a.len() {
            assert((a + b)[i] == a[i]);
        } else {
            assert((a + b)[i] == b[i - a.len()]);
        }
    }
}

/// The accesses of an expression without `has` and `iferror`.
proof fn lemma_adds(t: Tree, s: Sym, strict: bool, mode: Mode, root: bool)
    requires
        !t.phantom(),
    ensures
        all_add(t.accesses(s, strict, mode, None, root), mode),
    decreases t, 1nat,
{
    assert forall|i: int| 0 <= i < t.kids.len() implies !(#[trigger] t.kids[i]).phantom() by {}
    let n = t.kids.len();
    let cs = t.accesses(s, strict, mode, None, root);
    if t.op is GetAttr && n == 1 {
        lemma_adds(t.kids[0], s, strict, mode, false);
        let a = t.kids[0].accesses(s, strict, mode, None, false);
        let b = cs.skip(a.len() as int);
        assert(cs =~= a + b);
        lemma_all_add(a, b, mode);
    } else if (t.op == Op::Binary(BinaryOp::GetTag) || t.op == Op::Binary(BinaryOp::HasTag)) && n
        == 2 {
        lemma_adds(t.kids[0], s, strict, mode, false);
        lemma_adds(t.kids[1], s, strict, mode, false);
        let a = t.kids[0].accesses(s, strict, mode, None, false);
        let b = t.kids[1].accesses(s, strict, mode, None, false);
        let c = cs.skip((a + b).len() as int);
        lemma_all_add(a, b, mode);
        assert(cs =~= a + b + c);
        lemma_all_add(a + b, c, mode);
    } else if (t.op == Op::And || t.op == Op::Or) && n == 2 {
        let on = t.op == Op::And;
        let passes = t.kids[0].bool_literal() == Some(on);
        lemma_adds(t.kids[0], s, strict, mode, false);
        lemma_adds(t.kids[1], s, strict && passes, mode, false);
        lemma_all_add(
            t.kids[0].accesses(s, strict, mode, None, false),
            t.kids[1].accesses(s, strict && passes, mode, None, false),
            mode,
        );
    } else if t.op == Op::Unary(UnaryOp::Not) && n == 1 {
        lemma_adds(t.kids[0], s, strict, mode, false);
    } else if t.op == Op::If && n == 3 {
        lemma_adds(t.kids[0], s, strict, mode, false);
        lemma_adds(t.kids[1], s, false, mode, false);
        lemma_adds(t.kids[2], s, false, mode, false);
        let a = t.kids[0].accesses(s, strict, mode, None, false);
        let b = t.kids[1].accesses(s, false, mode, None, false);
        let c = t.kids[2].accesses(s, false, mode, None, false);
        lemma_all_add(a, b, mode);
        lemma_all_add(a + b, c, mode);
    } else {
        lemma_adds_each(t.kids, s, strict, mode);
    }
}

proof fn lemma_adds_each(ts: Seq<Tree>, s: Sym, strict: bool, mode: Mode)
    requires
        forall|i: int| 0 <= i < ts.len() ==> !(#[trigger] ts[i]).phantom(),
    ensures
        all_add(Tree::all_accesses(ts, s, strict, mode), mode),
    decreases ts, 0nat,
{
    if ts.len() > 0 {
        let f = ts.drop_last();
        assert forall|i: int| 0 <= i < f.len() implies !(#[trigger] f[i]).phantom() by {
            assert(f[i] == ts[i]);
        }
        lemma_adds_each(f, s, strict, mode);
        assert(!ts[ts.len() - 1].phantom());
        lemma_adds(ts.last(), s, strict, mode, false);
        lemma_all_add(
            Tree::all_accesses(f, s, strict, mode),
            ts.last().accesses(s, strict, mode, None, false),
            mode,
        );
    }
}

/// In an atom without `has` and `iferror` a missing receiver makes an error,
/// and nothing else.
pub proof fn law_missing_receiver_is_an_error(t: Tree, s: Sym, i: int)
    requires
        !t.phantom(),
        0 <= i < t.accesses(s, true, Mode::Plain, None, true).len(),
    ensures
        adds_error(t.accesses(s, true, Mode::Plain, None, true)[i]),
{
    lemma_adds(t, s, true, Mode::Plain, true);
}

/// An atom that is a `has` on a receiver without `has` and `iferror` is an
/// error where a receiver inside its own is missing, and `false` where its own
/// is missing and the attribute is required; if the attribute is not required,
/// its own receiver is no matter.
pub proof fn law_has_of_a_missing_receiver(t: Tree, s: Sym)
    requires
        t.op is HasAttr,
        t.kids.len() == 1,
        !t.kids[0].phantom(),
    ensures
        ({
            let cs = t.accesses(s, true, Mode::Plain, None, true);
            let inner = t.kids[0].accesses(s, true, Mode::Plain, None, false);
            let needs = match s.receiver(t.kids[0]) {
                Some((_, ety)) => type_declares(
                    s.entities.types@,
                    ety@,
                    t.op->HasAttr_0,
                    false,
                ),
                None => false,
            };
            &&& cs.len() == inner.len() + if needs {
                1int
            } else {
                0int
            }
            &&& forall|i: int|
                0 <= i < inner.len() ==> #[trigger] cs[i] == inner[i] && adds_error(cs[i])
            &&& needs ==> adds_bool(cs.last(), false) && s.receiver(t.kids[0]) == Some(
                (cs.last().receiver, cs.last().ety),
            )
        }),
{
    lemma_adds(t.kids[0], s, true, Mode::Plain, false);
    if let Some((_, ety)) = s.receiver(t.kids[0]) {
        s.law_attribute_is_required(ety@, t.op->HasAttr_0);
    }
}

/// In an atom that is `iferror(x, b)`, with a literal `b` and an `x` without
/// `has` and `iferror`, a missing receiver gives `b`, and nothing else.
pub proof fn law_missing_receiver_is_coalesced(t: Tree, s: Sym, b: bool, i: int)
    requires
        t.is_iferror(),
        t.kids.len() == 2,
        !t.kids[0].phantom(),
        t.kids[1] == Tree::bool(b),
        0 <= i < t.accesses(s, true, Mode::Plain, None, true).len(),
    ensures
        adds_bool(t.accesses(s, true, Mode::Plain, None, true)[i], b),
        !t.accesses(s, true, Mode::Plain, None, true)[i].fact,
{
    let a = t.kids[0].accesses(s, false, Mode::Coalesced(Some(b)), None, false);
    lemma_adds(t.kids[0], s, false, Mode::Coalesced(Some(b)), false);
    let l = t.kids[1];
    assert(l.kids =~= seq![]);
    assert(l.accesses(s, false, Mode::Plain, None, false) =~= seq![]) by {
        assert(Tree::all_accesses(l.kids, s, false, Mode::Plain) =~= seq![]);
    }
    assert(t.op == Op::Call("iferror"@));
    assert(t.accesses(s, true, Mode::Plain, None, true) =~= a);
    lemma_no_facts(t.kids[0], s, Mode::Coalesced(Some(b)), None, false);
}

/// What is not strict gives no fact.
proof fn lemma_no_facts(t: Tree, s: Sym, mode: Mode, truth: Option<bool>, root: bool)
    ensures
        forall|i: int|
            0 <= i < t.accesses(s, false, mode, truth, root).len() ==> !(#[trigger] t.accesses(
                s,
                false,
                mode,
                truth,
                root,
            )[i]).fact,
    decreases t, 1nat,
{
    let n = t.kids.len();
    let cs = t.accesses(s, false, mode, truth, root);
    if (t.op is GetAttr || t.op is HasAttr) && n == 1 {
        lemma_no_facts(t.kids[0], s, mode, None, false);
        let a = t.kids[0].accesses(s, false, mode, None, false);
        assert forall|i: int| 0 <= i < cs.len() implies !(#[trigger] cs[i]).fact by {
            if i < a.len() {
                assert(cs[i] == a[i]);
            }
        }
    } else if (t.op == Op::Binary(BinaryOp::GetTag) || t.op == Op::Binary(BinaryOp::HasTag)) && n
        == 2 {
        lemma_no_facts(t.kids[0], s, mode, None, false);
        lemma_no_facts(t.kids[1], s, mode, None, false);
        let a = t.kids[0].accesses(s, false, mode, None, false);
        let b = t.kids[1].accesses(s, false, mode, None, false);
        assert forall|i: int| 0 <= i < cs.len() implies !(#[trigger] cs[i]).fact by {
            if i < a.len() {
                assert(cs[i] == a[i]);
            } else if i < a.len() + b.len() {
                assert(cs[i] == b[i - a.len()]);
            }
        }
    } else if t.is_iferror() && n == 2 {
        let fallback = if root {
            t.kids[1].bool_literal()
        } else {
            None
        };
        lemma_no_facts(t.kids[0], s, Mode::Coalesced(fallback), None, false);
        lemma_no_facts(t.kids[1], s, mode, None, false);
        let a = t.kids[0].accesses(s, false, Mode::Coalesced(fallback), None, false);
        let b = t.kids[1].accesses(s, false, mode, None, false);
        assert(cs == a + b);
        assert forall|i: int| 0 <= i < cs.len() implies !(#[trigger] cs[i]).fact by {
            if i < a.len() {
                assert(cs[i] == a[i]);
            } else {
                assert(cs[i] == b[i - a.len()]);
            }
        }
    } else if (t.op == Op::And || t.op == Op::Or) && n == 2 {
        let on = t.op == Op::And;
        let decided = truth == Some(on);
        let passes = t.kids[0].bool_literal() == Some(on);
        let first = if decided {
            truth
        } else {
            None
        };
        let second = if decided || passes {
            truth
        } else {
            None
        };
        lemma_no_facts(t.kids[0], s, mode, first, false);
        lemma_no_facts(t.kids[1], s, mode, second, false);
        let a = t.kids[0].accesses(s, false, mode, first, false);
        let b = t.kids[1].accesses(s, false, mode, second, false);
        assert(cs == a + b);
        assert forall|i: int| 0 <= i < cs.len() implies !(#[trigger] cs[i]).fact by {
            if i < a.len() {
                assert(cs[i] == a[i]);
            } else {
                assert(cs[i] == b[i - a.len()]);
            }
        }
    } else if t.op == Op::Unary(UnaryOp::Not) && n == 1 {
        lemma_no_facts(
            t.kids[0],
            s,
            mode,
            match truth {
                Some(b) => Some(!b),
                None => None,
            },
            false,
        );
    } else if t.op == Op::If && n == 3 {
        lemma_no_facts(t.kids[0], s, mode, None, false);
        lemma_no_facts(t.kids[1], s, mode, None, false);
        lemma_no_facts(t.kids[2], s, mode, None, false);
        let a = t.kids[0].accesses(s, false, mode, None, false);
        let b = t.kids[1].accesses(s, false, mode, None, false);
        let c = t.kids[2].accesses(s, false, mode, None, false);
        assert(cs == a + b + c);
        assert forall|i: int| 0 <= i < cs.len() implies !(#[trigger] cs[i]).fact by {
            if i < a.len() {
                assert(cs[i] == a[i]);
            } else if i < a.len() + b.len() {
                assert(cs[i] == b[i - a.len()]);
            } else {
                assert(cs[i] == c[i - a.len() - b.len()]);
            }
        }
    } else {
        lemma_no_facts_each(t.kids, s, mode);
    }
}

proof fn lemma_no_facts_each(ts: Seq<Tree>, s: Sym, mode: Mode)
    ensures
        forall|i: int|
            0 <= i < Tree::all_accesses(ts, s, false, mode).len() ==> !(
            #[trigger] Tree::all_accesses(ts, s, false, mode)[i]).fact,
    decreases ts, 0nat,
{
    if ts.len() > 0 {
        let f = ts.drop_last();
        lemma_no_facts_each(f, s, mode);
        lemma_no_facts(ts.last(), s, mode, None, false);
        let a = Tree::all_accesses(f, s, false, mode);
        let b = ts.last().accesses(s, false, mode, None, false);
        let cs = Tree::all_accesses(ts, s, false, mode);
        assert(cs == a + b);
        assert forall|i: int| 0 <= i < cs.len() implies !(#[trigger] cs[i]).fact by {
            if i < a.len() {
                assert(cs[i] == a[i]);
            } else {
                assert(cs[i] == b[i - a.len()]);
            }
        }
    }
}

/// The path leads to an operand without passing an `iferror`.
pub open spec fn is_plain_path(t: Tree, path: Seq<int>) -> bool
    decreases path.len(),
{
    path.len() == 0 || {
        &&& 0 <= path[0] < t.kids.len()
        &&& !t.is_iferror()
        &&& is_plain_path(t.kids[path[0]], path.drop_first())
    }
}

/// The path leads to an operand that is evaluated whenever the expression is:
/// of `&&`, `||` and `if` it passes only the first operand.
pub open spec fn is_strict_path(t: Tree, path: Seq<int>) -> bool
    decreases path.len(),
{
    path.len() == 0 || {
        &&& 0 <= path[0] < t.kids.len()
        &&& !t.is_iferror()
        &&& t.op == Op::And || t.op == Op::Or || t.op == Op::If ==> path[0] == 0
        &&& is_strict_path(t.kids[path[0]], path.drop_first())
    }
}

/// One of the accesses is on the receiver, can make an error, and is a fact if
/// it has to be.
spec fn has_access(cs: Seq<Existence>, receiver: Term, ety: String, fact: bool) -> bool {
    exists|i: int|
        0 <= i < cs.len() && (#[trigger] cs[i]).receiver == receiver && cs[i].ety == ety
            && cs[i].adds.can_error && (fact ==> cs[i].fact)
}

proof fn lemma_has_access(
    a: Seq<Existence>,
    b: Seq<Existence>,
    at: int,
    receiver: Term,
    ety: String,
    fact: bool,
)
    requires
        has_access(a, receiver, ety, fact),
        0 <= at,
        at + a.len() <= b.len(),
        b.subrange(at, at + a.len()) == a,
    ensures
        has_access(b, receiver, ety, fact),
{
    let i = choose|i: int|
        0 <= i < a.len() && (#[trigger] a[i]).receiver == receiver && a[i].ety == ety
            && a[i].adds.can_error && (fact ==> a[i].fact);
    assert(b[at + i] == a[i]);
}

/// The accesses of one of several operands are among those of all.
proof fn lemma_each(ts: Seq<Tree>, i: int, s: Sym, strict: bool) -> (at: int)
    requires
        0 <= i < ts.len(),
    ensures
        0 <= at,
        at + ts[i].accesses(s, strict, Mode::Plain, None, false).len() <= Tree::all_accesses(
            ts,
            s,
            strict,
            Mode::Plain,
        ).len(),
        Tree::all_accesses(ts, s, strict, Mode::Plain).subrange(
            at,
            at + ts[i].accesses(s, strict, Mode::Plain, None, false).len(),
        ) == ts[i].accesses(s, strict, Mode::Plain, None, false),
    decreases ts.len(),
{
    let f = ts.drop_last();
    let a = Tree::all_accesses(f, s, strict, Mode::Plain);
    let b = ts.last().accesses(s, strict, Mode::Plain, None, false);
    let cs = Tree::all_accesses(ts, s, strict, Mode::Plain);
    assert(cs == a + b);
    if i == ts.len() - 1 {
        assert(cs.subrange(a.len() as int, (a.len() + b.len()) as int) =~= b);
        a.len() as int
    } else {
        let at = lemma_each(f, i, s, strict);
        assert(f[i] == ts[i]);
        let x = ts[i].accesses(s, strict, Mode::Plain, None, false);
        assert(cs.subrange(at, at + x.len()) =~= a.subrange(at, at + x.len()));
        at
    }
}

/// Whether an operand is strict where the expression is.
spec fn kid_strict(t: Tree, i: int, strict: bool) -> bool {
    if (t.op == Op::And || t.op == Op::Or) && t.kids.len() == 2 && i == 1 {
        strict && t.kids[0].bool_literal() == Some(t.op == Op::And)
    } else if t.op == Op::If && t.kids.len() == 3 && i > 0 {
        false
    } else {
        strict
    }
}

/// `x` stands in `cs` after `p`.
proof fn lemma_part(cs: Seq<Existence>, p: Seq<Existence>, x: Seq<Existence>, q: Seq<Existence>)
    requires
        cs == p + x + q,
    ensures
        p.len() + x.len() <= cs.len(),
        cs.subrange(p.len() as int, (p.len() + x.len()) as int) == x,
{
    assert(cs.subrange(p.len() as int, (p.len() + x.len()) as int) =~= x);
}

/// The accesses of the operands of a look-up.
proof fn lemma_lookup_operand(t: Tree, i: int, s: Sym, strict: bool, root: bool) -> (at: int)
    requires
        0 <= i < t.kids.len(),
        (t.op is GetAttr || t.op is HasAttr) && t.kids.len() == 1 || (t.op == Op::Binary(
            BinaryOp::GetTag,
        ) || t.op == Op::Binary(BinaryOp::HasTag)) && t.kids.len() == 2,
    ensures
        0 <= at,
        at + t.kids[i].accesses(s, strict, Mode::Plain, None, false).len() <= t.accesses(
            s,
            strict,
            Mode::Plain,
            None,
            root,
        ).len(),
        t.accesses(s, strict, Mode::Plain, None, root).subrange(
            at,
            at + t.kids[i].accesses(s, strict, Mode::Plain, None, false).len(),
        ) == t.kids[i].accesses(s, strict, Mode::Plain, None, false),
{
    let cs = t.accesses(s, strict, Mode::Plain, None, root);
    let none = Seq::<Existence>::empty();
    let a = t.kids[0].accesses(s, strict, Mode::Plain, None, false);
    if t.kids.len() == 1 {
        let q = cs.skip(a.len() as int);
        assert(cs =~= none + a + q);
        lemma_part(cs, none, a, q);
        0
    } else {
        let b = t.kids[1].accesses(s, strict, Mode::Plain, None, false);
        let q = cs.skip((a + b).len() as int);
        assert(cs =~= a + b + q);
        if i == 0 {
            assert(cs =~= none + a + (b + q));
            lemma_part(cs, none, a, b + q);
            0
        } else {
            lemma_part(cs, a, b, q);
            a.len() as int
        }
    }
}

/// The accesses of the operands of `&&`, `||`, `!` and `if`.
proof fn lemma_structure_operand(t: Tree, i: int, s: Sym, strict: bool, root: bool) -> (at: int)
    requires
        0 <= i < t.kids.len(),
        (t.op == Op::And || t.op == Op::Or) && t.kids.len() == 2 || t.op == Op::Unary(UnaryOp::Not)
            && t.kids.len() == 1 || t.op == Op::If && t.kids.len() == 3,
    ensures
        0 <= at,
        at + t.kids[i].accesses(s, kid_strict(t, i, strict), Mode::Plain, None, false).len()
            <= t.accesses(s, strict, Mode::Plain, None, root).len(),
        t.accesses(s, strict, Mode::Plain, None, root).subrange(
            at,
            at + t.kids[i].accesses(s, kid_strict(t, i, strict), Mode::Plain, None, false).len(),
        ) == t.kids[i].accesses(s, kid_strict(t, i, strict), Mode::Plain, None, false),
{
    let cs = t.accesses(s, strict, Mode::Plain, None, root);
    let none = Seq::<Existence>::empty();
    let a = t.kids[0].accesses(s, strict, Mode::Plain, None, false);
    if t.kids.len() == 1 {
        assert(cs =~= none + a + none);
        lemma_part(cs, none, a, none);
        0
    } else if t.kids.len() == 2 {
        let b = t.kids[1].accesses(s, kid_strict(t, 1, strict), Mode::Plain, None, false);
        assert(cs == a + b);
        if i == 0 {
            assert(cs =~= none + a + b);
            lemma_part(cs, none, a, b);
            0
        } else {
            assert(cs =~= a + b + none);
            lemma_part(cs, a, b, none);
            a.len() as int
        }
    } else {
        let b = t.kids[1].accesses(s, false, Mode::Plain, None, false);
        let c = t.kids[2].accesses(s, false, Mode::Plain, None, false);
        assert(cs == a + b + c);
        if i == 0 {
            assert(cs =~= none + a + (b + c));
            lemma_part(cs, none, a, b + c);
            0
        } else if i == 1 {
            lemma_part(cs, a, b, c);
            a.len() as int
        } else {
            assert(cs =~= (a + b) + c + none);
            lemma_part(cs, a + b, c, none);
            (a + b).len() as int
        }
    }
}

/// The accesses of an operand are among those of the expression.
proof fn lemma_operand(t: Tree, i: int, s: Sym, strict: bool, root: bool) -> (at: int)
    requires
        0 <= i < t.kids.len(),
        !t.is_iferror(),
    ensures
        0 <= at,
        at + t.kids[i].accesses(s, kid_strict(t, i, strict), Mode::Plain, None, false).len()
            <= t.accesses(s, strict, Mode::Plain, None, root).len(),
        t.accesses(s, strict, Mode::Plain, None, root).subrange(
            at,
            at + t.kids[i].accesses(s, kid_strict(t, i, strict), Mode::Plain, None, false).len(),
        ) == t.kids[i].accesses(s, kid_strict(t, i, strict), Mode::Plain, None, false),
{
    let n = t.kids.len();
    if (t.op is GetAttr || t.op is HasAttr) && n == 1 || (t.op == Op::Binary(BinaryOp::GetTag)
        || t.op == Op::Binary(BinaryOp::HasTag)) && n == 2 {
        lemma_lookup_operand(t, i, s, strict, root)
    } else if (t.op == Op::And || t.op == Op::Or) && n == 2 || t.op == Op::Unary(UnaryOp::Not) && n
        == 1 || t.op == Op::If && n == 3 {
        lemma_structure_operand(t, i, s, strict, root)
    } else {
        assert(t.accesses(s, strict, Mode::Plain, None, root) == Tree::all_accesses(
            t.kids,
            s,
            strict,
            Mode::Plain,
        ));
        lemma_each(t.kids, i, s, strict)
    }
}

/// The access at the end of a plain path is among those of the expression.
proof fn lemma_reaches(
    t: Tree,
    path: Seq<int>,
    s: Sym,
    strict: bool,
    root: bool,
    receiver: Term,
    ety: String,
)
    requires
        is_plain_path(t, path),
        at_path(t, path) is Some,
        is_lookup(at_path(t, path)->Some_0),
        s.receiver(at_path(t, path)->Some_0.kids[0]) == Some((receiver, ety)),
    ensures
        has_access(
            t.accesses(s, strict, Mode::Plain, None, root),
            receiver,
            ety,
            strict && is_strict_path(t, path) && !at_path(t, path)->Some_0.kids[0].phantom(),
        ),
    decreases path.len(),
{
    let cs = t.accesses(s, strict, Mode::Plain, None, root);
    let end = at_path(t, path)->Some_0;
    let fact = strict && is_strict_path(t, path) && !end.kids[0].phantom();
    if path.len() == 0 {
        assert(end == t);
        lemma_own(t, s, strict, root, receiver, ety);
    } else {
        let i = path[0];
        let rest = path.drop_first();
        let k = t.kids[i];
        let below = kid_strict(t, i, strict);
        assert(at_path(t, path) == at_path(k, rest));
        lemma_reaches(k, rest, s, below, false, receiver, ety);
        let a = k.accesses(s, below, Mode::Plain, None, false);
        let strong = below && is_strict_path(k, rest) && !end.kids[0].phantom();
        assert(has_access(a, receiver, ety, strong));
        if fact {
            assert(below == strict);
            assert(strong);
        }
        lemma_weaker(a, receiver, ety, strong, fact);
        let at = lemma_operand(t, i, s, strict, root);
        lemma_has_access(a, cs, at, receiver, ety, fact);
    }
}

/// The access that the expression itself is.
proof fn lemma_own(t: Tree, s: Sym, strict: bool, root: bool, receiver: Term, ety: String)
    requires
        is_lookup(t),
        s.receiver(t.kids[0]) == Some((receiver, ety)),
    ensures
        has_access(
            t.accesses(s, strict, Mode::Plain, None, root),
            receiver,
            ety,
            strict && !t.kids[0].phantom(),
        ),
{
    let cs = t.accesses(s, strict, Mode::Plain, None, root);
    let c = cs[cs.len() - 1];
    assert(c.receiver == receiver && c.ety == ety);
}

/// What is a fact is one.
proof fn lemma_weaker(cs: Seq<Existence>, receiver: Term, ety: String, strong: bool, weak: bool)
    requires
        has_access(cs, receiver, ety, strong),
        weak ==> strong,
    ensures
        has_access(cs, receiver, ety, weak),
{
    let i = choose|i: int|
        0 <= i < cs.len() && (#[trigger] cs[i]).receiver == receiver && cs[i].ety == ety
            && cs[i].adds.can_error && (strong ==> cs[i].fact);
    assert(cs[i].receiver == receiver);
}

/// The expression looks an attribute or a tag up.
pub open spec fn is_lookup(t: Tree) -> bool {
    (t.op is GetAttr && t.kids.len() == 1) || (t.op == Op::Binary(BinaryOp::GetTag) && t.kids.len()
        == 2)
}

/// Every attribute and every tag of an entity that an atom looks up, not under
/// an `iferror`, is an access of the atom that can make it an error; and if it
/// is looked up whenever the atom is evaluated, on a receiver without `has` and
/// `iferror`, the receiver is known to exist where the atom is a boolean.
pub proof fn law_every_lookup_is_an_access(
    t: Tree,
    path: Seq<int>,
    s: Sym,
    receiver: Term,
    ety: String,
)
    requires
        is_plain_path(t, path),
        at_path(t, path) is Some,
        is_lookup(at_path(t, path)->Some_0),
        s.receiver(at_path(t, path)->Some_0.kids[0]) == Some((receiver, ety)),
    ensures
        exists|i: int|
            0 <= i < t.accesses(s, true, Mode::Plain, None, true).len() && (#[trigger] t.accesses(
                s,
                true,
                Mode::Plain,
                None,
                true,
            )[i]).receiver == receiver && t.accesses(s, true, Mode::Plain, None, true)[i].ety == ety
                && t.accesses(s, true, Mode::Plain, None, true)[i].adds.can_error,
        is_strict_path(t, path) && !at_path(t, path)->Some_0.kids[0].phantom() ==> exists|i: int|
            0 <= i < t.facts(s, None).len() && (#[trigger] t.facts(s, None)[i]).receiver == receiver
                && t.facts(s, None)[i].ety == ety,
{
    lemma_reaches(t, path, s, true, true, receiver, ety);
    let cs = t.accesses(s, true, Mode::Plain, None, true);
    let fact = is_strict_path(t, path) && !at_path(t, path)->Some_0.kids[0].phantom();
    let i = choose|i: int|
        0 <= i < cs.len() && (#[trigger] cs[i]).receiver == receiver && cs[i].ety == ety
            && cs[i].adds.can_error && (fact ==> cs[i].fact);
    assert(cs[i].receiver == receiver);
    if fact {
        lemma_filter_keeps(cs, i);
        let j = choose|j: int| 0 <= j < t.facts(s, None).len() && t.facts(s, None)[j] == cs[i];
        assert(t.facts(s, None)[j].receiver == receiver);
    }
}

/// A fact among the accesses is among the facts.
proof fn lemma_filter_keeps(cs: Seq<Existence>, i: int)
    requires
        0 <= i < cs.len(),
        cs[i].fact,
    ensures
        cs.filter(|c: Existence| c.fact).contains(cs[i]),
    decreases cs.len(),
{
    reveal(Seq::filter);
    let keep = |c: Existence| c.fact;
    let f = cs.drop_last();
    let kept = cs.filter(keep);
    if i == cs.len() - 1 {
        assert(kept == f.filter(keep).push(cs.last()));
        assert(kept[kept.len() - 1] == cs[i]);
    } else {
        lemma_filter_keeps(f, i);
        let j = f.filter(keep).index_of(f[i]);
        assert(f.filter(keep).contains(f[i]));
        assert(kept[j] == cs[i]);
    }
}

/// What is told of the part at the path by the expression being `b`: `&&` being
/// true and `||` being false tell of both operands, and `!` of its own.
pub open spec fn told(t: Tree, path: Seq<int>, b: bool) -> Option<bool>
    decreases path.len(),
{
    if path.len() == 0 {
        Some(b)
    } else if (t.op == Op::And && b || t.op == Op::Or && !b) && t.kids.len() == 2 && 0 <= path[0]
        < 2 {
        told(t.kids[path[0]], path.drop_first(), b)
    } else if t.op == Op::Unary(UnaryOp::Not) && t.kids.len() == 1 && path[0] == 0 {
        told(t.kids[0], path.drop_first(), !b)
    } else {
        None
    }
}

/// The expression is a `has` or a `hasTag`.
pub open spec fn is_test(t: Tree) -> bool {
    (t.op is HasAttr && t.kids.len() == 1) || (t.op == Op::Binary(BinaryOp::HasTag) && t.kids.len()
        == 2)
}

/// Where an atom has a value that makes a `has` or a `hasTag` in it true, the
/// receiver of that is known to exist; and so is that of a lookup that has then
/// been made.
pub proof fn law_true_test_knows_its_receiver(
    t: Tree,
    path: Seq<int>,
    b: bool,
    s: Sym,
    receiver: Term,
    ety: String,
)
    requires
        at_path(t, path) is Some,
        s.receiver(at_path(t, path)->Some_0.kids[0]) == Some((receiver, ety)),
        !at_path(t, path)->Some_0.kids[0].phantom(),
        (told(t, path, b) == Some(true) && is_test(at_path(t, path)->Some_0)) || (told(t, path, b)
            is Some && is_lookup(at_path(t, path)->Some_0)),
    ensures
        exists|i: int|
            0 <= i < t.facts(s, Some(b)).len() && (#[trigger] t.facts(s, Some(b))[i]).receiver
                == receiver && t.facts(s, Some(b))[i].ety == ety,
{
    let x = at_path(t, path)->Some_0;
    let c = told(t, path, b);
    let inner = x.accesses(s, true, Mode::Plain, c, path.len() == 0);
    let all = t.accesses(s, true, Mode::Plain, Some(b), true);
    let e = inner.last();
    assert(inner.len() > 0 && e.receiver == receiver && e.ety == ety && e.fact);
    assert(inner.contains(e)) by {
        assert(inner[inner.len() - 1] == e);
    }
    lemma_told_accesses(t, path, b, s, true, e);
    let i = all.index_of(e);
    let f = |c: Existence| c.fact;
    assert(f(all[i]));
    assert(all.filter(f).contains(e)) by {
        broadcast use vstd::seq_lib::group_filter_ensures;
    }
    assert(t.facts(s, Some(b)) =~= all.filter(f));
    let j = t.facts(s, Some(b)).index_of(e);
    assert(t.facts(s, Some(b))[j] == e);
}

proof fn lemma_told_accesses(
    t: Tree,
    path: Seq<int>,
    b: bool,
    s: Sym,
    root: bool,
    e: Existence,
)
    requires
        told(t, path, b) is Some,
        at_path(t, path) is Some,
        at_path(t, path)->Some_0.accesses(
            s,
            true,
            Mode::Plain,
            told(t, path, b),
            root && path.len() == 0,
        ).contains(e),
    ensures
        t.accesses(s, true, Mode::Plain, Some(b), root).contains(e),
    decreases path.len(),
{
    if path.len() > 0 {
        let k = t.kids[path[0]];
        let all = t.accesses(s, true, Mode::Plain, Some(b), root);
        if t.op == Op::Unary(UnaryOp::Not) {
            lemma_told_accesses(k, path.drop_first(), !b, s, false, e);
        } else {
            lemma_told_accesses(k, path.drop_first(), b, s, false, e);
            let l = t.kids[0].accesses(s, true, Mode::Plain, Some(b), false);
            let r = t.kids[1].accesses(s, true, Mode::Plain, Some(b), false);
            assert(!t.is_iferror());
            assert(all =~= l + r);
            if path[0] == 0 {
                let i = l.index_of(e);
                assert(all[i] == e);
            } else {
                let i = r.index_of(e);
                assert(all[l.len() + i] == e);
            }
        }
    }
}

} // verus!
