//! Which guards the evaluator keeps, in terms of what the receiver's type
//! declares and of where the guard and its access stand.

use std::sync::Arc;

use vstd::prelude::*;

use crate::ast::{BinaryOp, Expr};
use crate::evaluator::compile::{attr_optional, attrs_of, Sym, TermType};
use crate::evaluator::node::{NKind, NTree};
use crate::evaluator::session::is_root;
use crate::semantics::first_with;
use crate::tree::{Op, Tree};
use crate::types::Type;

verus! {

/// The attributes declare `attr` with this: the first entry of that name says
/// whether it is optional.
pub open spec fn declares(attrs: Seq<(String, bool)>, attr: Seq<char>, optional: bool) -> bool {
    exists|i: int| #[trigger] first_with(attrs, attr, i) && attrs[i].1 == optional
}

/// The entity type declares `attr` with this: the first type of that name has
/// the attributes.
pub open spec fn type_declares(
    types: Seq<(String, Arc<Vec<(String, bool)>>)>,
    ety: Seq<char>,
    attr: Seq<char>,
    optional: bool,
) -> bool {
    exists|k: int| #[trigger]
        first_with(types, ety, k) && declares(types[k].1@, attr, optional)
}

/// Every entry of a record type with distinct names is declared as it says,
/// wherever it stands.
pub proof fn law_every_entry_is_declared(attrs: Seq<(String, bool)>, i: int)
    requires
        0 <= i < attrs.len(),
        forall|a: int, b: int|
            0 <= a < b < attrs.len() ==> (#[trigger] attrs[a]).0@ != (#[trigger] attrs[b]).0@,
    ensures
        declares(attrs, attrs[i].0@, attrs[i].1),
        !declares(attrs, attrs[i].0@, !attrs[i].1),
{
    assert forall|j: int| 0 <= j < i implies (#[trigger] attrs[j]).0@ != attrs[i].0@ by {
        assert(attrs[j].0@ != attrs[i].0@);
    }
    assert(first_with(attrs, attrs[i].0@, i));
    lemma_first_is_one(attrs, attrs[i].0@);
}

/// There is one first entry.
proof fn lemma_first_is_one<V>(pairs: Seq<(String, V)>, key: Seq<char>)
    ensures
        forall|i: int, j: int| #[trigger]
            first_with(pairs, key, i) && #[trigger] first_with(pairs, key, j) ==> i == j,
{
    assert forall|i: int, j: int| #[trigger]
        first_with(pairs, key, i) && #[trigger] first_with(pairs, key, j) implies i == j by {
        if i < j {
            assert(pairs[i].0@ != key);
        } else if j < i {
            assert(pairs[j].0@ != key);
        }
    }
}

/// Looking an attribute up says what is declared of it, and nothing only if no
/// entry has its name.
pub proof fn law_attribute_is_found(attrs: Seq<(String, bool)>, attr: Seq<char>)
    ensures
        forall|optional: bool|
            attr_optional(attrs, attr) == Some(optional) <==> #[trigger] declares(
                attrs,
                attr,
                optional,
            ),
        attr_optional(attrs, attr) is None <==> forall|i: int|
            0 <= i < attrs.len() ==> (#[trigger] attrs[i]).0@ != attr,
    decreases attrs.len(),
{
    if attrs.len() > 0 {
        let rest = attrs.drop_first();
        law_attribute_is_found(rest, attr);
        lemma_first_is_one(attrs, attr);
        assert forall|i: int| 0 <= i < rest.len() implies #[trigger] rest[i] == attrs[i + 1] by {}
        if attrs[0].0@ == attr {
            assert(first_with(attrs, attr, 0));
        } else {
            assert forall|optional: bool|
                attr_optional(attrs, attr) == Some(optional) <==> #[trigger] declares(
                    attrs,
                    attr,
                    optional,
                ) by {
                if declares(rest, attr, optional) {
                    let i = choose|i: int| #[trigger]
                        first_with(rest, attr, i) && rest[i].1 == optional;
                    assert forall|j: int| 0 <= j < i + 1 implies (#[trigger] attrs[j]).0@ != attr by {
                        if j > 0 {
                            assert(rest[j - 1] == attrs[j]);
                        }
                    }
                    assert(rest[i] == attrs[i + 1]);
                    assert(first_with(attrs, attr, i + 1));
                }
                if declares(attrs, attr, optional) {
                    let i = choose|i: int| #[trigger]
                        first_with(attrs, attr, i) && attrs[i].1 == optional;
                    assert forall|j: int| 0 <= j < i - 1 implies (#[trigger] rest[j]).0@ != attr by {
                        assert(rest[j] == attrs[j + 1]);
                    }
                    assert(rest[i - 1] == attrs[i]);
                    assert(first_with(rest, attr, i - 1));
                }
                assert(declares(rest, attr, optional) <==> declares(attrs, attr, optional));
            }
            if attr_optional(attrs, attr) is None {
                assert forall|i: int| 0 <= i < attrs.len() implies (
                #[trigger] attrs[i]).0@ != attr by {
                    if i > 0 {
                        assert(rest[i - 1] == attrs[i]);
                    }
                }
            }
        }
    }
}

/// Looking an entity type up gives the attributes of the first type of that
/// name, and nothing only if there is none.
pub proof fn law_entity_type_is_found(
    types: Seq<(String, Arc<Vec<(String, bool)>>)>,
    ety: Seq<char>,
)
    ensures
        forall|k: int| #[trigger]
            first_with(types, ety, k) ==> attrs_of(types, ety) == Some(types[k].1),
        attrs_of(types, ety) is None <==> forall|k: int|
            0 <= k < types.len() ==> (#[trigger] types[k]).0@ != ety,
        attrs_of(types, ety) is Some ==> exists|k: int| #[trigger] first_with(types, ety, k),
    decreases types.len(),
{
    if types.len() > 0 {
        let rest = types.drop_first();
        law_entity_type_is_found(rest, ety);
        assert forall|i: int| 0 <= i < rest.len() implies #[trigger] rest[i] == types[i + 1] by {}
        if types[0].0@ == ety {
            assert(first_with(types, ety, 0));
        } else {
            assert forall|k: int| #[trigger] first_with(types, ety, k) implies attrs_of(types, ety)
                == Some(types[k].1) by {
                assert forall|j: int| 0 <= j < k - 1 implies (#[trigger] rest[j]).0@ != ety by {
                    assert(rest[j] == types[j + 1]);
                }
                assert(rest[k - 1] == types[k]);
                assert(first_with(rest, ety, k - 1));
            }
            if attrs_of(types, ety) is None {
                assert forall|i: int| 0 <= i < types.len() implies (
                #[trigger] types[i]).0@ != ety by {
                    if i > 0 {
                        assert(rest[i - 1] == types[i]);
                    }
                }
            } else {
                let k = choose|k: int| #[trigger] first_with(rest, ety, k);
                assert forall|j: int| 0 <= j < k + 1 implies (#[trigger] types[j]).0@ != ety by {
                    if j > 0 {
                        assert(rest[j - 1] == types[j]);
                    }
                }
                assert(rest[k] == types[k + 1]);
                assert(first_with(types, ety, k + 1));
            }
        }
    }
}

impl Sym {
    /// The receiver's type declares the attribute with this, be it an entity or
    /// a record.
    pub open spec fn receiver_declares(self, receiver: Tree, attr: Seq<char>, optional: bool) -> bool {
        match (self.compile)(receiver) {
            Ok(c) => match c.ty {
                TermType::RecordOf(attrs) => declares(attrs@, attr, optional),
                TermType::Entity(ety) => type_declares(
                    self.entities.types@,
                    ety@,
                    attr,
                    optional,
                ),
                TermType::Other => false,
            },
            Err(_) => false,
        }
    }

    /// A guard is needed exactly if it is a `has` of an attribute that the type
    /// of its receiver, entity or record, declares optional, or a `hasTag`.
    pub proof fn law_guard_is_needed(self, g: Tree)
        ensures
            self.optional_guard(g) <==> {
                ||| g.op matches Op::HasAttr(attr) && self.receiver_declares(g.kids[0], attr, true)
                ||| g.op == Op::Binary(BinaryOp::HasTag)
            },
    {
        if let Op::HasAttr(attr) = g.op {
            if let Ok(c) = (self.compile)(g.kids[0]) {
                match c.ty {
                    TermType::RecordOf(attrs) => {
                        law_attribute_is_found(attrs@, attr);
                        assert(declares(attrs@, attr, true) <==> attr_optional(attrs@, attr)
                            == Some(true));
                    },
                    TermType::Entity(ety) => {
                        self.lemma_type_declares(ety@, attr, true);
                    },
                    TermType::Other => {},
                }
            }
        }
    }

    proof fn lemma_type_declares(self, ety: Seq<char>, attr: Seq<char>, optional: bool)
        ensures
            type_declares(self.entities.types@, ety, attr, optional) <==> (attrs_of(
                self.entities.types@,
                ety,
            ) matches Some(attrs) && attr_optional(attrs@, attr) == Some(optional)),
    {
        let types = self.entities.types@;
        law_entity_type_is_found(types, ety);
        if let Some(attrs) = attrs_of(types, ety) {
            law_attribute_is_found(attrs@, attr);
            let k = choose|k: int| #[trigger] first_with(types, ety, k);
            assert(types[k].1 == attrs);
            assert(declares(attrs@, attr, optional) <==> attr_optional(attrs@, attr) == Some(
                optional,
            ));
            if type_declares(types, ety, attr, optional) {
                let j = choose|j: int| #[trigger]
                    first_with(types, ety, j) && declares(types[j].1@, attr, optional);
                assert(attrs_of(types, ety) == Some(types[j].1));
            }
        }
    }

    /// An attribute is required exactly if the entity type declares it, and not
    /// as optional.
    pub proof fn law_attribute_is_required(self, ety: Seq<char>, attr: Seq<char>)
        ensures
            self.required(ety, attr) <==> type_declares(
                self.entities.types@,
                ety,
                attr,
                false,
            ),
    {
        self.lemma_type_declares(ety, attr, false);
    }
}

/// What stands at the end of a path of operands.
pub open spec fn at_path(t: Tree, path: Seq<int>) -> Option<Tree>
    decreases path.len(),
{
    if path.len() == 0 {
        Some(t)
    } else if 0 <= path[0] < t.kids.len() {
        at_path(t.kids[path[0]], path.drop_first())
    } else {
        None
    }
}

/// `x` stands somewhere in `t`.
pub open spec fn stands_in(t: Tree, x: Tree) -> bool {
    exists|path: Seq<int>| #[trigger] at_path(t, path) == Some(x)
}

/// An expression occurs in another exactly if it stands somewhere in it.
pub proof fn law_occurs_where_it_stands(t: Tree, x: Tree)
    ensures
        t.occurs(x) <==> stands_in(t, x),
    decreases t,
{
    if t.occurs(x) {
        if t == x {
            assert(at_path(t, Seq::empty()) == Some(x));
        } else {
            let i = choose|i: int| 0 <= i < t.kids.len() && (#[trigger] t.kids[i]).occurs(x);
            law_occurs_where_it_stands(t.kids[i], x);
            let p = choose|p: Seq<int>| #[trigger] at_path(t.kids[i], p) == Some(x);
            let q = seq![i] + p;
            assert(q.drop_first() =~= p);
            assert(at_path(t, q) == Some(x));
        }
    }
    if stands_in(t, x) {
        let p = choose|p: Seq<int>| #[trigger] at_path(t, p) == Some(x);
        if p.len() > 0 {
            let i = p[0];
            assert(at_path(t.kids[i], p.drop_first()) == Some(x));
            law_occurs_where_it_stands(t.kids[i], x);
            assert(t.kids[i].occurs(x));
        }
    }
}

/// `a` is the access that `g` is the guard of: the same attribute of the same
/// receiver, or the same tag.
pub open spec fn is_access_of(a: Tree, g: Tree) -> bool {
    &&& a.kids == g.kids
    &&& {
        ||| g.op matches Op::HasAttr(attr) && a.op == Op::GetAttr(attr)
        ||| g.op == Op::Binary(BinaryOp::HasTag) && a.op == Op::Binary(BinaryOp::GetTag)
    }
}

impl Sym {
    /// `g` is a guard of `root` that has to stay: it stands in the left operand
    /// of `&&` or the test of `if`, its access in the right operand or the
    /// `then` branch, and the receiver's type declares the attribute optional.
    pub open spec fn has_to_stay(self, root: Tree, g: Tree) -> bool {
        &&& exists|n: Tree, a: Tree|
            #![trigger stands_in(root, n), stands_in(n.kids[1], a)]
            stands_in(root, n) && (n.op == Op::And || n.op == Op::If) && stands_in(n.kids[0], g)
                && stands_in(n.kids[1], a) && is_access_of(a, g)
        &&& {
            ||| g.op matches Op::HasAttr(attr) && self.receiver_declares(g.kids[0], attr, true)
            ||| g.op == Op::Binary(BinaryOp::HasTag)
        }
    }

    /// The guards that are kept are exactly those that have to stay.
    pub proof fn law_kept_guards_are_those_that_have_to_stay(self, root: Tree, g: Tree)
        ensures
            self.keeps(root, g) <==> self.has_to_stay(root, g),
    {
        self.law_guard_is_needed(g);
        if self.keeps(root, g) {
            let n = choose|n: Tree| #[trigger] root.occurs(n) && self.guards_at(n, g);
            let a = g.guard_access()->Some_0;
            law_occurs_where_it_stands(root, n);
            law_occurs_where_it_stands(n.kids[0], g);
            law_occurs_where_it_stands(n.kids[1], a);
            assert(is_access_of(a, g));
            assert(stands_in(root, n) && stands_in(n.kids[1], a));
        }
        if self.has_to_stay(root, g) {
            let (n, a) = choose|n: Tree, a: Tree|
                #![trigger stands_in(root, n), stands_in(n.kids[1], a)]
                stands_in(root, n) && (n.op == Op::And || n.op == Op::If) && stands_in(
                    n.kids[0],
                    g,
                ) && stands_in(n.kids[1], a) && is_access_of(a, g);
            law_occurs_where_it_stands(root, n);
            law_occurs_where_it_stands(n.kids[0], g);
            law_occurs_where_it_stands(n.kids[1], a);
            assert(g.guard_access() == Some(a));
            assert(self.guards_at(n, g));
        }
    }
}

impl NTree {
    /// `p` holds of every atom of the nodes.
    pub open spec fn all_atoms(self, p: spec_fn(NTree) -> bool) -> bool
        decreases self,
    {
        match self.kind {
            NKind::Atom { .. } => p(self),
            NKind::Not(x) => x.all_atoms(p),
            NKind::And(l, r) => l.all_atoms(p) && (r matches Some(r) ==> r.all_atoms(p)),
            NKind::Or(l, r) => l.all_atoms(p) && (r matches Some(r) ==> r.all_atoms(p)),
            NKind::If(c, a, b) => c.all_atoms(p) && (a matches Some(a) ==> a.all_atoms(p)) && (
            b matches Some(b) ==> b.all_atoms(p)),
        }
    }

    /// Exactly the atoms that are among `kept` are marked.
    proof fn lemma_marked(self, kept: Seq<Tree>)
        ensures
            self.marked(kept).all_atoms(
                |n: NTree| (n.kind matches NKind::Atom { keep, .. } && keep) == kept.contains(
                    n.expr.tree(),
                ),
            ),
        decreases self,
    {
        match self.kind {
            NKind::Atom { .. } => {},
            NKind::Not(x) => {
                x.lemma_marked(kept);
            },
            NKind::And(l, r) => {
                l.lemma_marked(kept);
                if let Some(r) = r {
                    r.lemma_marked(kept);
                }
            },
            NKind::Or(l, r) => {
                l.lemma_marked(kept);
                if let Some(r) = r {
                    r.lemma_marked(kept);
                }
            },
            NKind::If(c, a, b) => {
                c.lemma_marked(kept);
                if let Some(a) = a {
                    a.lemma_marked(kept);
                }
                if let Some(b) = b {
                    b.lemma_marked(kept);
                }
            },
        }
    }

    /// What holds of an atom where one thing does holds of all where that does.
    proof fn lemma_all_atoms(self, p: spec_fn(NTree) -> bool, q: spec_fn(NTree) -> bool)
        requires
            self.all_atoms(p),
            forall|n: NTree| #[trigger] p(n) ==> q(n),
        ensures
            self.all_atoms(q),
        decreases self,
    {
        match self.kind {
            NKind::Atom { .. } => {
                assert(p(self));
            },
            NKind::Not(x) => {
                x.lemma_all_atoms(p, q);
            },
            NKind::And(l, r) => {
                l.lemma_all_atoms(p, q);
                if let Some(r) = r {
                    r.lemma_all_atoms(p, q);
                }
            },
            NKind::Or(l, r) => {
                l.lemma_all_atoms(p, q);
                if let Some(r) = r {
                    r.lemma_all_atoms(p, q);
                }
            },
            NKind::If(c, a, b) => {
                c.lemma_all_atoms(p, q);
                if let Some(a) = a {
                    a.lemma_all_atoms(p, q);
                }
                if let Some(b) = b {
                    b.lemma_all_atoms(p, q);
                }
            },
        }
    }

    /// In the nodes of a typed expression that are evaluated, exactly the atoms
    /// that have to stay as guards are marked to be kept.
    pub proof fn law_atoms_that_have_to_stay_are_marked(
        root: NTree,
        typed: Expr<Option<Type>>,
        s: Sym,
    )
        requires
            is_root(root, typed, s),
        ensures
            root.all_atoms(
                |n: NTree| (n.kind matches NKind::Atom { keep, .. } && keep) == s.has_to_stay(
                    typed.tree(),
                    n.expr.tree(),
                ),
            ),
    {
        let kept = choose|kept: Seq<Tree>|
            root == #[trigger] typed.nodes(s)->Ok_0.marked(kept) && forall|g: Tree| #[trigger]
                kept.contains(g) <==> s.keeps(typed.tree(), g);
        let all = typed.nodes(s)->Ok_0;
        all.lemma_marked(kept);
        let p = |n: NTree| (n.kind matches NKind::Atom { keep, .. } && keep) == kept.contains(
            n.expr.tree(),
        );
        let q = |n: NTree| (n.kind matches NKind::Atom { keep, .. } && keep) == s.has_to_stay(
            typed.tree(),
            n.expr.tree(),
        );
        assert forall|n: NTree| #[trigger] p(n) implies q(n) by {
            s.law_kept_guards_are_those_that_have_to_stay(typed.tree(), n.expr.tree());
        }
        root.lemma_all_atoms(p, q);
    }
}

} // verus!
