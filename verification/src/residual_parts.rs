//! What the parts of a residual say of the whole: where it can err, which
//! entities it refers to, and what its leaves can be.

use vstd::prelude::*;

use crate::ast::{BinaryOp, UnaryOp};
use crate::outcome::EvaluationOutcome;
use crate::residual::{RNode, RTree};
use crate::tree::{Atomic, Op, Tree};
use crate::types::{BoolType, Type};

verus! {

/// What stands at the end of a path of operands of a residual.
pub open spec fn part_at(r: RTree, path: Seq<int>) -> Option<RTree>
    decreases path.len(),
{
    if path.len() == 0 {
        Some(r)
    } else if r.node is Partial && 0 <= path[0] < r.kids.len() {
        part_at(r.kids[path[0]], path.drop_first())
    } else {
        None
    }
}

/// The node can err by itself: it is an error, arithmetic that can overflow, an
/// attribute or a tag that is looked up, or a call of an extension function.
pub open spec fn errs_itself(r: RTree) -> bool {
    match r.node {
        RNode::Error => true,
        RNode::Concrete(_) => false,
        RNode::Partial(op) => {
            ||| op == Op::Binary(BinaryOp::Add)
            ||| op == Op::Binary(BinaryOp::Sub)
            ||| op == Op::Binary(BinaryOp::Mul)
            ||| op == Op::Unary(UnaryOp::Neg)
            ||| op == Op::Binary(BinaryOp::GetTag)
            ||| op is GetAttr
            ||| op is Call
        },
    }
}

/// A residual can err exactly if one of its nodes can err by itself.
pub proof fn law_can_err_where_a_part_does(r: RTree)
    ensures
        r.can_error() <==> exists|path: Seq<int>|
            (#[trigger] part_at(r, path)) is Some && errs_itself(part_at(r, path)->Some_0),
    decreases r,
{
    if r.can_error() {
        if errs_itself(r) {
            assert(part_at(r, Seq::empty()) == Some(r));
        } else {
            let i = choose|i: int| 0 <= i < r.kids.len() && (#[trigger] r.kids[i]).can_error();
            law_can_err_where_a_part_does(r.kids[i]);
            let p = choose|p: Seq<int>|
                (#[trigger] part_at(r.kids[i], p)) is Some && errs_itself(
                    part_at(r.kids[i], p)->Some_0,
                );
            let q = seq![i] + p;
            assert(q.drop_first() =~= p);
            assert(part_at(r, q) == part_at(r.kids[i], p));
        }
    }
    if exists|path: Seq<int>|
        (#[trigger] part_at(r, path)) is Some && errs_itself(part_at(r, path)->Some_0) {
        let p = choose|p: Seq<int>|
            (#[trigger] part_at(r, p)) is Some && errs_itself(part_at(r, p)->Some_0);
        if p.len() > 0 {
            let i = p[0];
            let q = p.drop_first();
            assert(part_at(r.kids[i], q) == part_at(r, p));
            law_can_err_where_a_part_does(r.kids[i]);
            assert(r.kids[i].can_error());
        }
    }
}

/// An operand that is not `&&`, `||`, `!` or `if` can be what its type says:
/// either boolean, unless the type is that of one of them, and an error if it
/// can err; what is not a boolean counts as an error.
pub proof fn law_leaf_can_be_what_its_type_says(r: RTree)
    requires
        r.node matches RNode::Partial(op) && op != Op::And && op != Op::Or && op != Op::If && op
            != Op::Unary(UnaryOp::Not),
    ensures
        match r.ty {
            Type::Bool(b) => {
                &&& r.outcomes().contains(EvaluationOutcome::True) <==> b != BoolType::False
                &&& r.outcomes().contains(EvaluationOutcome::False) <==> b != BoolType::True
                &&& r.outcomes().contains(EvaluationOutcome::Error) <==> r.can_error()
            },
            _ => r.outcomes() == set![EvaluationOutcome::Error],
        },
{
}

/// What stands at the end of a path of elements of a set or of fields of a
/// record.
pub open spec fn element_at(t: Tree, path: Seq<int>) -> Option<Tree>
    decreases path.len(),
{
    if path.len() == 0 {
        Some(t)
    } else if (t.op is SetLit || t.op is Record) && 0 <= path[0] < t.kids.len() {
        element_at(t.kids[path[0]], path.drop_first())
    } else {
        None
    }
}

/// The expression is the entity.
pub open spec fn is_entity(t: Tree, u: (Seq<char>, Seq<char>)) -> bool {
    t.op == Op::Lit(Atomic::Uid(u.0, u.1))
}

/// A value refers to an entity exactly if it is the entity, or an element of a
/// set or a field of a record in it is, however deep.
pub proof fn law_value_refers_to_its_elements(t: Tree, u: (Seq<char>, Seq<char>))
    ensures
        t.value_mentions(u) <==> exists|path: Seq<int>|
            (#[trigger] element_at(t, path)) is Some && is_entity(element_at(t, path)->Some_0, u),
    decreases t,
{
    assert(u == (u.0, u.1));
    if t.value_mentions(u) {
        if t.op is Lit {
            assert(element_at(t, Seq::empty()) == Some(t));
        } else {
            let i = choose|i: int|
                0 <= i < t.kids.len() && (#[trigger] t.kids[i]).value_mentions(u);
            law_value_refers_to_its_elements(t.kids[i], u);
            let p = choose|p: Seq<int>|
                (#[trigger] element_at(t.kids[i], p)) is Some && is_entity(
                    element_at(t.kids[i], p)->Some_0,
                    u,
                );
            let q = seq![i] + p;
            assert(q.drop_first() =~= p);
            assert(element_at(t, q) == element_at(t.kids[i], p));
        }
    }
    if exists|path: Seq<int>|
        (#[trigger] element_at(t, path)) is Some && is_entity(element_at(t, path)->Some_0, u) {
        let p = choose|p: Seq<int>|
            (#[trigger] element_at(t, p)) is Some && is_entity(element_at(t, p)->Some_0, u);
        if p.len() > 0 {
            let i = p[0];
            assert(element_at(t.kids[i], p.drop_first()) == element_at(t, p));
            law_value_refers_to_its_elements(t.kids[i], u);
            assert(t.kids[i].value_mentions(u));
        }
    }
}

/// A residual refers to an entity exactly if one of the values in it does.
pub proof fn law_residual_refers_to_its_values(r: RTree, u: (Seq<char>, Seq<char>))
    ensures
        r.mentions(u) <==> exists|path: Seq<int>|
            (#[trigger] part_at(r, path)) is Some && (
            part_at(r, path)->Some_0.node matches RNode::Concrete(t) && t.value_mentions(u)),
    decreases r,
{
    if r.mentions(u) {
        if r.node is Concrete {
            assert(part_at(r, Seq::empty()) == Some(r));
        } else {
            let i = choose|i: int| 0 <= i < r.kids.len() && (#[trigger] r.kids[i]).mentions(u);
            law_residual_refers_to_its_values(r.kids[i], u);
            let p = choose|p: Seq<int>|
                (#[trigger] part_at(r.kids[i], p)) is Some && (
                part_at(r.kids[i], p)->Some_0.node matches RNode::Concrete(t) && t.value_mentions(
                    u,
                ));
            let q = seq![i] + p;
            assert(q.drop_first() =~= p);
            assert(part_at(r, q) == part_at(r.kids[i], p));
        }
    }
    if exists|path: Seq<int>|
        (#[trigger] part_at(r, path)) is Some && (part_at(r, path)->Some_0.node
            matches RNode::Concrete(t) && t.value_mentions(u)) {
        let p = choose|p: Seq<int>|
            (#[trigger] part_at(r, p)) is Some && (part_at(r, p)->Some_0.node
                matches RNode::Concrete(t) && t.value_mentions(u));
        if p.len() > 0 {
            let i = p[0];
            assert(part_at(r.kids[i], p.drop_first()) == part_at(r, p));
            law_residual_refers_to_its_values(r.kids[i], u);
            assert(r.kids[i].mentions(u));
            assert(RTree::any_mentions(r.kids, u));
        }
    }
}

} // verus!
