//! The mathematical model of expressions: a uniform tree of operators.
//!
//! Every expression, whatever data its nodes carry, is modelled by a
//! [`Tree`]: the operator at its root with the parts that are not
//! sub-expressions, and the trees of its children in evaluation order.

use vstd::prelude::*;

use crate::ast::{BinaryOp, PatternElem, SlotId, UnaryOp, Var};
use crate::text::comes_before;

verus! {

/// A literal constant.
#[verifier::ext_equal]
pub enum Atomic {
    Bool(bool),
    Long(int),
    Str(Seq<char>),
    Uid(Seq<char>, Seq<char>),
}

/// What the root of an expression is, without its sub-expressions.
#[verifier::ext_equal]
pub enum Op {
    Lit(Atomic),
    Var(Var),
    Slot(SlotId),
    Unknown(Seq<char>),
    If,
    And,
    Or,
    Unary(UnaryOp),
    Binary(BinaryOp),
    Call(Seq<char>),
    GetAttr(Seq<char>),
    HasAttr(Seq<char>),
    Like(Seq<PatternElem>),
    Is(Seq<char>),
    SetLit,
    Record(Seq<Seq<char>>),
}

/// An expression, up to the data and the source locations of its nodes.
#[verifier::ext_equal]
pub struct Tree {
    pub op: Op,
    pub kids: Seq<Tree>,
}

impl Op {
    /// How many children a node with this operator has; `None` if any
    /// number is allowed.
    pub open spec fn arity(self) -> Option<nat> {
        match self {
            Op::Lit(_) | Op::Var(_) | Op::Slot(_) | Op::Unknown(_) => Some(0),
            Op::If => Some(3),
            Op::And | Op::Or | Op::Binary(_) => Some(2),
            Op::Unary(_) | Op::GetAttr(_) | Op::HasAttr(_) | Op::Like(_) | Op::Is(_) => Some(1),
            Op::Record(keys) => Some(keys.len()),
            Op::Call(_) | Op::SetLit => None,
        }
    }

    /// `n` children are as many as the operator takes.
    pub open spec fn takes(self, n: nat) -> bool {
        self.arity() is None || self.arity() == Some(n)
    }
}

/// Each of `keys` comes before those that follow it.
pub open spec fn in_order(keys: Seq<Seq<char>>) -> bool {
    forall|i: int, j: int|
        0 <= i < j < keys.len() ==> comes_before(#[trigger] keys[i], #[trigger] keys[j])
}

/// Names that are in order are determined by which they are: two record
/// literals with the same field names list them alike.
pub proof fn law_names_determine_order(a: Seq<Seq<char>>, b: Seq<Seq<char>>)
    requires
        in_order(a),
        in_order(b),
        forall|k: Seq<char>| #[trigger] a.contains(k) <==> b.contains(k),
    ensures
        a == b,
    decreases a.len(),
{
    if a.len() == 0 {
        if b.len() > 0 {
            assert(b.contains(b[0]));
            assert(a.contains(b[0]));
        }
        assert(a =~= b);
    } else {
        assert(a.contains(a[0]));
        assert(b.len() > 0) by {
            assert(b.contains(a[0]));
        }
        lemma_last_is_greatest(a, b);
        let x = a.drop_last();
        let y = b.drop_last();
        lemma_front(a);
        lemma_front(b);
        assert forall|k: Seq<char>| #[trigger] x.contains(k) <==> y.contains(k) by {
            assert(a.contains(k) <==> b.contains(k));
        }
        law_names_determine_order(x, y);
        assert(a =~= x.push(a.last()));
        assert(b =~= y.push(b.last()));
    }
}

/// The last of names in order is the greatest of them.
proof fn lemma_last_is_greatest(a: Seq<Seq<char>>, b: Seq<Seq<char>>)
    requires
        in_order(a),
        in_order(b),
        a.len() > 0,
        b.len() > 0,
        forall|k: Seq<char>| #[trigger] a.contains(k) <==> b.contains(k),
    ensures
        a.last() == b.last(),
{
    assert(a.contains(a[a.len() - 1]));
    assert(b.contains(b[b.len() - 1]));
    assert(b.contains(a.last()) && a.contains(b.last()));
    let i = choose|i: int| 0 <= i < b.len() && b[i] == a.last();
    let j = choose|j: int| 0 <= j < a.len() && a[j] == b.last();
    if a.last() != b.last() {
        assert(comes_before(b[i], b[b.len() - 1]));
        assert(comes_before(a[j], a[a.len() - 1]));
        crate::text::lemma_before_total(a.last(), b.last());
    }
}

/// Without the last, names in order are the others.
proof fn lemma_front(a: Seq<Seq<char>>)
    requires
        in_order(a),
        a.len() > 0,
    ensures
        in_order(a.drop_last()),
        forall|k: Seq<char>| #[trigger]
            a.drop_last().contains(k) <==> a.contains(k) && k != a.last(),
{
    let x = a.drop_last();
    assert forall|i: int, j: int| 0 <= i < j < x.len() implies comes_before(
        #[trigger] x[i],
        #[trigger] x[j],
    ) by {
        assert(comes_before(a[i], a[j]));
    }
    assert forall|k: Seq<char>| #[trigger] x.contains(k) <==> a.contains(k) && k != a.last() by {
        if x.contains(k) {
            let i = choose|i: int| 0 <= i < x.len() && x[i] == k;
            assert(a[i] == k);
            assert(comes_before(a[i], a[a.len() - 1]));
            crate::text::lemma_before_total(k, k);
        }
        if a.contains(k) && k != a.last() {
            let i = choose|i: int| 0 <= i < a.len() && a[i] == k;
            assert(x[i] == k);
        }
    }
}

impl Tree {
    /// Every node has as many children as its operator takes.
    pub open spec fn shaped(self) -> bool
        decreases self,
    {
        &&& self.op.takes(self.kids.len())
        &&& forall|i: int| 0 <= i < self.kids.len() ==> (#[trigger] self.kids[i]).shaped()
    }

    /// Every node has as many children as its operator takes, and the names of
    /// the fields of every record are in order and distinct.
    pub open spec fn wf(self) -> bool
        decreases self,
    {
        &&& self.op.takes(self.kids.len())
        &&& self.op matches Op::Record(keys) ==> in_order(keys)
        &&& forall|i: int| 0 <= i < self.kids.len() ==> (#[trigger] self.kids[i]).wf()
    }

    /// The tree is at most `n` nodes deep.
    pub open spec fn fits(self, n: nat) -> bool
        decreases n,
    {
        n > 0 && forall|i: int|
            0 <= i < self.kids.len() ==> (#[trigger] self.kids[i]).fits((n - 1) as nat)
    }

    /// The number of nodes.
    pub open spec fn size(self) -> nat
        decreases self,
    {
        1 + Tree::sizes(self.kids)
    }

    /// The number of nodes of all the trees of `ts`.
    pub open spec fn sizes(ts: Seq<Tree>) -> nat
        decreases ts,
    {
        if ts.len() == 0 {
            0
        } else {
            ts[0].size() + Tree::sizes(ts.subrange(1, ts.len() as int))
        }
    }
}

} // verus!
