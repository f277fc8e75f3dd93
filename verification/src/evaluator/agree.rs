//! What the asserts about assumed entities and requests say of the symbolic
//! store: they hold exactly where it agrees with what is assumed.

use std::sync::Arc;

use vstd::prelude::*;

use crate::ast::{EntityUid, Expr};
use crate::evaluator::assumptions::{
    tag_names, AView, EntityInfo, PartialEntity, PartialRequest, SymRequest,
};
use crate::evaluator::compile::{Compiled, Sym};
use crate::evaluator::err::EvaluationError;
use crate::evaluator::state::{
    entities_asserted, existing, Assumption, Backend, CompiledSet, PolicyError, Terms,
};
use crate::evaluator::term::{Model, Term};
use crate::policy::{Policy, PolicySet};
use crate::typechecked::Checked;
use crate::types::{RequestEnv, Schema};

verus! {

/// What a term of the symbolic store stands for.
#[verifier::ext_equal]
pub enum Thing {
    Entity(Seq<char>, Seq<char>),
    Text(Seq<char>),
    Entities(Set<(Seq<char>, Seq<char>)>),
    Texts(Set<Seq<char>>),
    /// The tag of an entity with this name.
    Tag(Seq<char>, Seq<char>, Seq<char>),
    /// Anything else, told apart by numbers.
    Other(int),
}

/// A store: the functions by their numbers, and what the terms stand for that
/// are not built from entities, strings and sets of them.
pub struct Store {
    pub app: spec_fn(u64, Thing) -> Thing,
    pub other: spec_fn(Term) -> Thing,
}

impl Term {
    /// What the term stands for in the store.
    pub open spec fn thing(self, s: Store) -> Thing
        decreases self,
    {
        match self {
            Term::Entity(u) => Thing::Entity(u.ty@, u.eid@),
            Term::Text(t) => Thing::Text(t@),
            Term::NoEntities(_) => Thing::Entities(Set::empty()),
            Term::NoTexts => Thing::Texts(Set::empty()),
            Term::Insert(a, b) => match (a.thing(s), b.thing(s)) {
                (Thing::Entities(set), Thing::Entity(t, e)) => Thing::Entities(set.insert((t, e))),
                (Thing::Texts(set), Thing::Text(t)) => Thing::Texts(set.insert(t)),
                _ => (s.other)(self),
            },
            Term::TagOf(a, b) => match (a.thing(s), b.thing(s)) {
                (Thing::Entity(t, e), Thing::Text(k)) => Thing::Tag(t, e, k),
                _ => (s.other)(self),
            },
            Term::App(f, t) => (s.app)(f, t.thing(s)),
            _ => (s.other)(self),
        }
    }
}

/// `a == b`
pub open spec fn equation(a: Term, b: Term) -> Term {
    Term::Eq(Arc::new(a), Arc::new(b))
}

impl Store {
    /// The model is on the store: an equation holds where both sides stand for
    /// the same.
    pub open spec fn models(self, m: Model) -> bool {
        forall|a: Term, b: Term| #[trigger]
            equation(a, b).holds(m) <==> a.thing(self) == b.thing(self)
    }
}

/// `set` holds exactly those of the entities `all` that are of type `ty`.
pub open spec fn is_those_of_type(
    set: Set<(Seq<char>, Seq<char>)>,
    all: Seq<EntityUid>,
    ty: Seq<char>,
) -> bool {
    forall|t: Seq<char>, e: Seq<char>| #[trigger]
        set.contains((t, e)) <==> t == ty && exists|j: int|
            0 <= j < all.len() && (#[trigger] all[j]).ty@ == t && all[j].eid@ == e
}

/// `set` holds exactly the names of the tags.
pub open spec fn is_names_of(
    set: Set<Seq<char>>,
    tags: Seq<(String, Result<Term, String>)>,
) -> bool {
    forall|k: Seq<char>| #[trigger]
        set.contains(k) <==> exists|j: int| 0 <= j < tags.len() && (#[trigger] tags[j]).0@ == k
}

impl PartialEntity {
    /// What the entity is.
    pub open spec fn thing(&self) -> Thing {
        Thing::Entity(self.uid.ty@, self.uid.eid@)
    }

    /// The store agrees with what is known of the attributes of the entity.
    pub open spec fn attrs_agree(&self, info: EntityInfo, s: Store) -> bool {
        match (self.attrs, info.data) {
            (Some(Ok(literal)), Some(d)) if info.standard => (s.app)(d.attrs, self.thing())
                == literal.thing(s),
            _ => true,
        }
    }

    /// The store agrees with what is known of the ancestors of the entity: for
    /// each type that the schema declares for its ancestors, they are exactly
    /// those of the given ones that are of that type.
    pub open spec fn ancestors_agree(&self, info: EntityInfo, s: Store) -> bool {
        match (self.ancestors, info.data) {
            (Some(ancs), Some(d)) => forall|k: int|
                0 <= k < d.ancestors@.len() ==> {
                    let (ty, f) = #[trigger] d.ancestors@[k];
                    (s.app)(f, self.thing()) matches Thing::Entities(set) && is_those_of_type(
                        set,
                        ancs@,
                        ty@,
                    )
                },
            _ => true,
        }
    }

    /// The store agrees with what is known of the tags of the entity: their
    /// names are exactly the given ones, and each has its value.
    pub open spec fn tags_agree(&self, info: EntityInfo, s: Store) -> bool {
        match (self.tags, info.data) {
            (Some(tags), Some(d)) if info.standard && d.tags is Some => {
                let (keys, vals) = d.tags->Some_0;
                &&& (s.app)(keys, self.thing()) matches Thing::Texts(set) && is_names_of(set, tags@)
                &&& forall|j: int|
                    0 <= j < tags@.len() ==> ((#[trigger] tags@[j]).1 matches Ok(literal)
                        ==> (s.app)(vals, Thing::Tag(self.uid.ty@, self.uid.eid@, tags@[j].0@))
                        == literal.thing(s))
            },
            _ => true,
        }
    }

    /// The store agrees with what is known of the entity.
    pub open spec fn agrees(&self, info: EntityInfo, s: Store) -> bool {
        &&& self.attrs_agree(info, s)
        &&& self.ancestors_agree(info, s)
        &&& self.tags_agree(info, s)
    }
}

/// One more assert.
proof fn lemma_push(ts: Seq<Term>, t: Term, m: Model)
    ensures
        Term::all_hold(ts.push(t), m) <==> Term::all_hold(ts, m) && t.holds(m),
{
    let all = ts.push(t);
    assert(all[ts.len() as int] == t);
    if Term::all_hold(all, m) {
        assert forall|i: int| 0 <= i < ts.len() implies (#[trigger] ts[i]).holds(m) by {
            assert(all[i] == ts[i]);
        }
    }
    if Term::all_hold(ts, m) && t.holds(m) {
        assert forall|i: int| 0 <= i < all.len() implies (#[trigger] all[i]).holds(m) by {
            if i < ts.len() {
                assert(all[i] == ts[i]);
            }
        }
    }
}

/// One more equation.
proof fn lemma_eq(v: AView, a: Term, b: Term, s: Store, m: Model)
    requires
        s.models(m),
    ensures
        Term::all_hold(v.assert_eq(a, b).asserts, m) <==> Term::all_hold(v.asserts, m) && a.thing(s)
            == b.thing(s),
{
    lemma_push(v.asserts, equation(a, b), m);
}

/// The set that is built of those of the first `n` entities that are of a type,
/// and what the asserts are.
proof fn lemma_ancestors_of(v: AView, ancs: Seq<EntityUid>, n: nat, ty: String, s: Store)
    requires
        n <= ancs.len(),
    ensures
        v.ancestors_of(ancs, n, ty).0.asserts == v.asserts,
        v.ancestors_of(ancs, n, ty).1.thing(s) matches Thing::Entities(set) && is_those_of_type(
            set,
            ancs.take(n as int),
            ty@,
        ),
    decreases n,
{
    if n > 0 {
        lemma_ancestors_of(v, ancs, (n - 1) as nat, ty, s);
        let (view, before) = v.ancestors_of(ancs, (n - 1) as nat, ty);
        let old_set = before.thing(s)->Entities_0;
        let anc = ancs[n - 1];
        let all = ancs.take(n as int);
        let front = ancs.take(n - 1);
        let set = v.ancestors_of(ancs, n, ty).1.thing(s)->Entities_0;
        assert(Term::Entity(anc).thing(s) == Thing::Entity(anc.ty@, anc.eid@));
        if anc.ty@ == ty@ {
            assert(v.ancestors_of(ancs, n, ty).1 == Term::Insert(
                Arc::new(before),
                Arc::new(Term::Entity(anc)),
            ));
            assert(set == old_set.insert((anc.ty@, anc.eid@)));
        } else {
            assert(set == old_set);
        }
        assert forall|t: Seq<char>, e: Seq<char>| #[trigger] set.contains((t, e)) <==> t == ty@
            && exists|j: int|
            0 <= j < all.len() && (#[trigger] all[j]).ty@ == t && all[j].eid@ == e by {
            assert(old_set.contains((t, e)) <==> t == ty@ && exists|j: int|
                0 <= j < front.len() && (#[trigger] front[j]).ty@ == t && front[j].eid@ == e);
            if set.contains((t, e)) {
                if old_set.contains((t, e)) {
                    let j = choose|j: int|
                        0 <= j < front.len() && (#[trigger] front[j]).ty@ == t && front[j].eid@
                            == e;
                    assert(all[j] == front[j]);
                } else {
                    assert(all[n - 1] == anc);
                }
            }
            if t == ty@ && exists|j: int|
                0 <= j < all.len() && (#[trigger] all[j]).ty@ == t && all[j].eid@ == e {
                let j = choose|j: int|
                    0 <= j < all.len() && (#[trigger] all[j]).ty@ == t && all[j].eid@ == e;
                if j < n - 1 {
                    assert(front[j] == all[j]);
                } else {
                    assert(all[j] == anc);
                }
            }
        }
    } else {
        assert(v.ancestors_of(ancs, n, ty).1 == Term::NoEntities(ty));
        assert(Term::NoEntities(ty).thing(s) == Thing::Entities(Set::empty()));
    }
}

/// A set of the entities of a type is determined by which they are.
proof fn lemma_those_unique(
    a: Set<(Seq<char>, Seq<char>)>,
    b: Set<(Seq<char>, Seq<char>)>,
    all: Seq<EntityUid>,
    ty: Seq<char>,
)
    requires
        is_those_of_type(a, all, ty),
        is_those_of_type(b, all, ty),
    ensures
        a == b,
{
    assert forall|x: (Seq<char>, Seq<char>)| a.contains(x) == b.contains(x) by {
        assert(x == (x.0, x.1));
        assert(a.contains((x.0, x.1)) == b.contains((x.0, x.1)));
    }
    assert(a =~= b);
}

/// What the asserts on the ancestors say.
proof fn lemma_ancestors(
    v: AView,
    uid: EntityUid,
    ancs: Seq<EntityUid>,
    types: Seq<(String, u64)>,
    n: nat,
    s: Store,
    m: Model,
)
    requires
        n <= types.len(),
        s.models(m),
    ensures
        Term::all_hold(v.assert_ancestors(uid, ancs, types, n).asserts, m) <==> Term::all_hold(
            v.asserts,
            m,
        ) && forall|k: int|
            0 <= k < n ==> {
                let (ty, f) = #[trigger] types[k];
                (s.app)(f, Thing::Entity(uid.ty@, uid.eid@)) matches Thing::Entities(set)
                    && is_those_of_type(set, ancs, ty@)
            },
    decreases n,
{
    if n > 0 {
        let before = v.assert_ancestors(uid, ancs, types, (n - 1) as nat);
        lemma_ancestors(v, uid, ancs, types, (n - 1) as nat, s, m);
        let (ty, f) = types[n - 1];
        let (view, set) = before.ancestors_of(ancs, ancs.len(), ty);
        lemma_ancestors_of(before, ancs, ancs.len(), ty, s);
        assert(ancs.take(ancs.len() as int) =~= ancs);
        let app = Term::App(f, Arc::new(Term::Entity(uid)));
        lemma_eq(view, app, set, s, m);
        let e = Thing::Entity(uid.ty@, uid.eid@);
        assert(Term::Entity(uid).thing(s) == e);
        assert(app.thing(s) == (s.app)(f, e));
        let built = set.thing(s)->Entities_0;
        assert(((s.app)(f, e) matches Thing::Entities(x) && is_those_of_type(x, ancs, ty@)) <==> (
        s.app)(f, e) == set.thing(s)) by {
            if let Thing::Entities(x) = (s.app)(f, e) {
                if is_those_of_type(x, ancs, ty@) {
                    lemma_those_unique(x, built, ancs, ty@);
                }
            }
        }
        assert(v.assert_ancestors(uid, ancs, types, n) == view.assert_eq(app, set));
        let holds = |k: int|
            {
                let (ty, f) = types[k];
                (s.app)(f, Thing::Entity(uid.ty@, uid.eid@)) matches Thing::Entities(set)
                    && is_those_of_type(set, ancs, ty@)
            };
        assert(holds(n - 1) <==> (s.app)(f, e) == set.thing(s));
        assert((forall|k: int|
            0 <= k < n ==> {
                let (ty, f) = #[trigger] types[k];
                (s.app)(f, Thing::Entity(uid.ty@, uid.eid@)) matches Thing::Entities(set)
                    && is_those_of_type(set, ancs, ty@)
            }) <==> holds(n - 1) && forall|k: int|
            0 <= k < n - 1 ==> {
                let (ty, f) = #[trigger] types[k];
                (s.app)(f, Thing::Entity(uid.ty@, uid.eid@)) matches Thing::Entities(set)
                    && is_those_of_type(set, ancs, ty@)
            }) by {
            assert(types[n - 1] == (ty, f));
        }
    }
}

/// The set that is built of the names of the first `n` tags.
proof fn lemma_tag_names(tags: Seq<(String, Result<Term, String>)>, n: nat, s: Store)
    requires
        n <= tags.len(),
    ensures
        tag_names(tags, n).thing(s) matches Thing::Texts(set) && is_names_of(
            set,
            tags.take(n as int),
        ),
    decreases n,
{
    if n > 0 {
        lemma_tag_names(tags, (n - 1) as nat, s);
        let before = tag_names(tags, (n - 1) as nat);
        let old_set = before.thing(s)->Texts_0;
        let name = tags[n - 1].0;
        let all = tags.take(n as int);
        let front = tags.take(n - 1);
        assert(Term::Text(name).thing(s) == Thing::Text(name@));
        assert(tag_names(tags, n) == Term::Insert(Arc::new(before), Arc::new(Term::Text(name))));
        let set = tag_names(tags, n).thing(s)->Texts_0;
        assert(set == old_set.insert(name@));
        assert forall|k: Seq<char>| #[trigger] set.contains(k) <==> exists|j: int|
            0 <= j < all.len() && (#[trigger] all[j]).0@ == k by {
            assert(old_set.contains(k) <==> exists|j: int|
                0 <= j < front.len() && (#[trigger] front[j]).0@ == k);
            if set.contains(k) {
                if old_set.contains(k) {
                    let j = choose|j: int| 0 <= j < front.len() && (#[trigger] front[j]).0@ == k;
                    assert(all[j] == front[j]);
                } else {
                    assert(all[n - 1] == tags[n - 1]);
                }
            }
            if exists|j: int| 0 <= j < all.len() && (#[trigger] all[j]).0@ == k {
                let j = choose|j: int| 0 <= j < all.len() && (#[trigger] all[j]).0@ == k;
                if j < n - 1 {
                    assert(front[j] == all[j]);
                } else {
                    assert(all[j] == tags[n - 1]);
                }
            }
        }
    } else {
        assert(Term::NoTexts.thing(s) == Thing::Texts(Set::empty()));
    }
}

/// What the asserts on the values of the first `n` tags say, and when one does
/// not fit.
proof fn lemma_tags(
    v: AView,
    uid: EntityUid,
    tags: Seq<(String, Result<Term, String>)>,
    vals: u64,
    n: nat,
    s: Store,
    m: Model,
)
    requires
        n <= tags.len(),
        s.models(m),
    ensures
        match v.assert_tags(uid, tags, vals, n) {
            Ok(after) => {
                &&& forall|j: int| 0 <= j < n ==> (#[trigger] tags[j]).1 is Ok
                &&& after.footprint == v.footprint
                &&& Term::all_hold(after.asserts, m) <==> Term::all_hold(v.asserts, m) && forall|
                    j: int,
                |
                    0 <= j < n ==> ((#[trigger] tags[j]).1 matches Ok(literal) ==> (s.app)(
                        vals,
                        Thing::Tag(uid.ty@, uid.eid@, tags[j].0@),
                    ) == literal.thing(s))
            },
            Err((key, why)) => exists|j: int|
                0 <= j < n && (#[trigger] tags[j]).1 == Err::<Term, String>(why) && tags[j].0@
                    == key && forall|i: int| 0 <= i < j ==> (#[trigger] tags[i]).1 is Ok,
        },
    decreases n,
{
    if n > 0 {
        lemma_tags(v, uid, tags, vals, (n - 1) as nat, s, m);
        if let Ok(before) = v.assert_tags(uid, tags, vals, (n - 1) as nat) {
            match tags[n - 1].1 {
                Ok(literal) => {
                    let tag = Term::TagOf(
                        Arc::new(Term::Entity(uid)),
                        Arc::new(Term::Text(tags[n - 1].0)),
                    );
                    let app = Term::App(vals, Arc::new(tag));
                    lemma_eq(before, app, literal, s, m);
                    assert(Term::Entity(uid).thing(s) == Thing::Entity(uid.ty@, uid.eid@));
                    assert(Term::Text(tags[n - 1].0).thing(s) == Thing::Text(tags[n - 1].0@));
                    assert(tag.thing(s) == Thing::Tag(uid.ty@, uid.eid@, tags[n - 1].0@));
                    assert(app.thing(s) == (s.app)(vals, tag.thing(s)));
                    assert((forall|j: int|
                        0 <= j < n ==> ((#[trigger] tags[j]).1 matches Ok(literal) ==> (s.app)(
                            vals,
                            Thing::Tag(uid.ty@, uid.eid@, tags[j].0@),
                        ) == literal.thing(s))) <==> app.thing(s) == literal.thing(s) && forall|
                        j: int,
                    |
                        0 <= j < n - 1 ==> ((#[trigger] tags[j]).1 matches Ok(literal) ==> (s.app)(
                            vals,
                            Thing::Tag(uid.ty@, uid.eid@, tags[j].0@),
                        ) == literal.thing(s))) by {
                        assert(tags[n - 1].1 == Ok::<Term, String>(literal));
                    }
                },
                Err(why) => {},
            }
        }
    }
}

impl PartialEntity {
    /// The asserts about an assumed entity hold in a model exactly if its store
    /// agrees with what is known of the entity: its attributes, which of the
    /// given ancestors it has of each declared type, and its tags.
    pub proof fn law_asserts_say_that_the_store_agrees(
        &self,
        info: EntityInfo,
        out: AView,
        s: Store,
        m: Model,
    )
        requires
            s.models(m),
            self.asserted(info, out) is Ok,
        ensures
            Term::all_hold(self.asserted(info, out)->Ok_0.asserts, m) <==> Term::all_hold(
                out.asserts,
                m,
            ) && self.agrees(info, s),
    {
        let d = info.data->Some_0;
        let uid = Term::Entity(self.uid);
        let v0 = out.mention(self.uid);
        assert(uid.thing(s) == self.thing());
        let v1 = match (self.attrs, info.standard) {
            (Some(Ok(literal)), true) => v0.assert_eq(Term::App(d.attrs, Arc::new(uid)), literal),
            _ => v0,
        };
        if let (Some(Ok(literal)), true) = (self.attrs, info.standard) {
            let app = Term::App(d.attrs, Arc::new(uid));
            lemma_eq(v0, app, literal, s, m);
            assert(app.thing(s) == (s.app)(d.attrs, uid.thing(s)));
        }
        assert(Term::all_hold(v1.asserts, m) <==> Term::all_hold(out.asserts, m)
            && self.attrs_agree(info, s));
        let v2 = match self.ancestors {
            Some(ancs) => v1.assert_ancestors(
                self.uid,
                ancs@,
                d.ancestors@,
                d.ancestors@.len(),
            ),
            None => v1,
        };
        if let Some(ancs) = self.ancestors {
            lemma_ancestors(v1, self.uid, ancs@, d.ancestors@, d.ancestors@.len(), s, m);
        }
        assert(Term::all_hold(v2.asserts, m) <==> Term::all_hold(v1.asserts, m)
            && self.ancestors_agree(info, s));
        if let (Some(tags), Some((keys, vals)), true) = (self.tags, d.tags, info.standard) {
            let names = tag_names(tags@, tags@.len());
            let app = Term::App(keys, Arc::new(uid));
            let v3 = v2.assert_eq(app, names);
            lemma_eq(v2, app, names, s, m);
            assert(app.thing(s) == (s.app)(keys, uid.thing(s)));
            lemma_tag_names(tags@, tags@.len(), s);
            assert(tags@.take(tags@.len() as int) =~= tags@);
            let built = names.thing(s)->Texts_0;
            assert(((s.app)(keys, self.thing()) matches Thing::Texts(x) && is_names_of(x, tags@))
                <==> (s.app)(keys, self.thing()) == names.thing(s)) by {
                if let Thing::Texts(x) = (s.app)(keys, self.thing()) {
                    if is_names_of(x, tags@) {
                        assert(x =~= built);
                    }
                }
            }
            lemma_tags(v3, self.uid, tags@, vals, tags@.len(), s, m);
        }
    }
}

/// The entities mentioned in building a set of ancestors.
proof fn lemma_mentions(v: AView, ancs: Seq<EntityUid>, n: nat, ty: String)
    requires
        n <= ancs.len(),
    ensures
        forall|t: Term| #[trigger]
            v.ancestors_of(ancs, n, ty).0.footprint.contains(t) <==> v.footprint.contains(t)
                || exists|j: int|
                0 <= j < n && (#[trigger] ancs[j]).ty@ == ty@ && t == Term::SomeOf(
                    Arc::new(Term::Entity(ancs[j])),
                ),
    decreases n,
{
    if n > 0 {
        lemma_mentions(v, ancs, (n - 1) as nat, ty);
        let before = v.ancestors_of(ancs, (n - 1) as nat, ty).0;
        let after = v.ancestors_of(ancs, n, ty).0;
        let anc = ancs[n - 1];
        let new = Term::SomeOf(Arc::new(Term::Entity(anc)));
        if anc.ty@ == ty@ {
            lemma_contains_push(before.footprint, new);
            assert(after.footprint == before.footprint.push(new));
        } else {
            assert(after.footprint == before.footprint);
        }
        assert forall|t: Term| #[trigger] after.footprint.contains(t) <==> v.footprint.contains(t)
            || exists|j: int|
            0 <= j < n && (#[trigger] ancs[j]).ty@ == ty@ && t == Term::SomeOf(
                Arc::new(Term::Entity(ancs[j])),
            ) by {
            assert(before.footprint.contains(t) <==> v.footprint.contains(t) || exists|j: int|
                0 <= j < n - 1 && (#[trigger] ancs[j]).ty@ == ty@ && t == Term::SomeOf(
                    Arc::new(Term::Entity(ancs[j])),
                ));
            if anc.ty@ == ty@ && t == new {
                assert(ancs[n - 1].ty@ == ty@);
            }
        }
    }
}

proof fn lemma_contains_push(ts: Seq<Term>, x: Term)
    ensures
        forall|t: Term| #[trigger] ts.push(x).contains(t) <==> ts.contains(t) || t == x,
{
    let all = ts.push(x);
    assert(all[ts.len() as int] == x);
    assert forall|t: Term| #[trigger] all.contains(t) <==> ts.contains(t) || t == x by {
        if ts.contains(t) {
            let i = ts.index_of(t);
            assert(all[i] == t);
        }
        if all.contains(t) {
            let i = all.index_of(t);
            if i < ts.len() {
                assert(ts[i] == t);
            }
        }
    }
}

/// The entities mentioned in the asserts on the ancestors.
proof fn lemma_ancestor_mentions(
    v: AView,
    uid: EntityUid,
    ancs: Seq<EntityUid>,
    types: Seq<(String, u64)>,
    n: nat,
)
    requires
        n <= types.len(),
    ensures
        forall|t: Term| #[trigger]
            v.assert_ancestors(uid, ancs, types, n).footprint.contains(t) <==> v.footprint.contains(
                t,
            ) || exists|j: int, k: int|
                0 <= j < ancs.len() && 0 <= k < n && (#[trigger] ancs[j]).ty@ == (
                #[trigger] types[k]).0@ && t == Term::SomeOf(Arc::new(Term::Entity(ancs[j]))),
    decreases n,
{
    if n > 0 {
        lemma_ancestor_mentions(v, uid, ancs, types, (n - 1) as nat);
        let before = v.assert_ancestors(uid, ancs, types, (n - 1) as nat);
        let after = v.assert_ancestors(uid, ancs, types, n);
        let ty: String = types[n - 1].0;
        lemma_mentions(before, ancs, ancs.len(), ty);
        assert(after.footprint == before.ancestors_of(ancs, ancs.len(), ty).0.footprint);
        assert forall|t: Term| #[trigger] after.footprint.contains(t) <==> v.footprint.contains(t)
            || exists|j: int, k: int|
            0 <= j < ancs.len() && 0 <= k < n && (#[trigger] ancs[j]).ty@ == (
            #[trigger] types[k]).0@ && t == Term::SomeOf(Arc::new(Term::Entity(ancs[j]))) by {
            assert(before.footprint.contains(t) <==> v.footprint.contains(t) || exists|
                j: int,
                k: int,
            |
                0 <= j < ancs.len() && 0 <= k < n - 1 && (#[trigger] ancs[j]).ty@ == (
                #[trigger] types[k]).0@ && t == Term::SomeOf(Arc::new(Term::Entity(ancs[j]))));
            assert(after.footprint.contains(t) <==> before.footprint.contains(t) || exists|j: int|
                0 <= j < ancs.len() && (#[trigger] ancs[j]).ty@ == ty@ && t == Term::SomeOf(
                    Arc::new(Term::Entity(ancs[j])),
                ));
            if exists|j: int|
                0 <= j < ancs.len() && (#[trigger] ancs[j]).ty@ == ty@ && t == Term::SomeOf(
                    Arc::new(Term::Entity(ancs[j])),
                ) {
                let j = choose|j: int|
                    0 <= j < ancs.len() && (#[trigger] ancs[j]).ty@ == ty@ && t == Term::SomeOf(
                        Arc::new(Term::Entity(ancs[j])),
                    );
                assert(ancs[j].ty@ == types[n - 1].0@);
            }
        }
    }
}

impl PartialEntity {
    /// The asserts about an assumed entity mention the entity and those of its
    /// given ancestors that are of a declared type, and no other entity.
    pub proof fn law_asserts_mention(&self, info: EntityInfo, out: AView, t: Term)
        requires
            self.asserted(info, out) is Ok,
        ensures
            self.asserted(info, out)->Ok_0.footprint.contains(t) <==> {
                ||| out.footprint.contains(t)
                ||| t == Term::SomeOf(Arc::new(Term::Entity(self.uid)))
                ||| self.ancestors matches Some(ancs) && info.data matches Some(d) && exists|
                    j: int,
                    k: int,
                |
                    0 <= j < ancs@.len() && 0 <= k < d.ancestors@.len() && (
                    #[trigger] ancs@[j]).ty@ == (#[trigger] d.ancestors@[k]).0@ && t
                        == Term::SomeOf(Arc::new(Term::Entity(ancs@[j])))
            },
    {
        let d = info.data->Some_0;
        let v0 = out.mention(self.uid);
        lemma_contains_push(out.footprint, Term::SomeOf(Arc::new(Term::Entity(self.uid))));
        let v1 = match (self.attrs, info.standard) {
            (Some(Ok(literal)), true) => v0.assert_eq(
                Term::App(d.attrs, Arc::new(Term::Entity(self.uid))),
                literal,
            ),
            _ => v0,
        };
        assert(v1.footprint == v0.footprint);
        if let Some(ancs) = self.ancestors {
            lemma_ancestor_mentions(v1, self.uid, ancs@, d.ancestors@, d.ancestors@.len());
        }
        let v2 = match self.ancestors {
            Some(ancs) => v1.assert_ancestors(
                self.uid,
                ancs@,
                d.ancestors@,
                d.ancestors@.len(),
            ),
            None => v1,
        };
        if let (Some(tags), Some((keys, vals)), true) = (self.tags, d.tags, info.standard) {
            let v3 = v2.assert_eq(
                Term::App(keys, Arc::new(Term::Entity(self.uid))),
                tag_names(tags@, tags@.len()),
            );
            lemma_tags_footprint(v3, self.uid, tags@, vals, tags@.len());
        }
    }

    /// An entity is refused exactly if it does not fit the schema, and with the
    /// first of these reasons that holds: it is not valid, its type is not in
    /// the schema, its attributes do not fit, it has tags where its type
    /// declares none, or one of its tags does not fit. Attributes and tags are
    /// looked at for standard types alone, tags also only where the type has
    /// them.
    pub proof fn law_entity_is_refused(&self, info: EntityInfo, out: AView)
        ensures
            match self.asserted(info, out) {
                Ok(_) => {
                    &&& info.valid
                    &&& info.data is Some
                    &&& info.standard ==> !(self.attrs matches Some(Err(_)))
                    &&& info.standard && self.tags is Some && info.data->Some_0.tags is Some ==> {
                        &&& info.tagged
                        &&& forall|j: int|
                            0 <= j < self.tags->Some_0@.len() ==> (
                            #[trigger] self.tags->Some_0@[j]).1 is Ok
                    }
                },
                Err(m) => if !info.valid {
                    m == "entity `"@ + self.name@
                        + "` is not valid for the schema (unknown type, or not a member of an enumerated type)"@
                } else if info.data is None {
                    m == "entity type `"@ + self.uid.ty@ + "` not in the schema"@
                } else if self.attrs matches Some(Err(why)) && info.standard {
                    m == "attributes of `"@ + self.name@ + "`: "@ + self.attrs->Some_0->Err_0@
                } else {
                    &&& info.standard
                    &&& info.data->Some_0.tags is Some
                    &&& self.tags matches Some(tags) && if !info.tagged {
                        m == "entity `"@ + self.name@ + "` has tags but its type declares none"@
                    } else {
                        exists|j: int|
                            0 <= j < tags@.len() && (#[trigger] tags@[j]).1 is Err && m == "tag `"@
                                + tags@[j].0@ + "` of `"@ + self.name@ + "`: "@
                                + tags@[j].1->Err_0@ && forall|i: int|
                                0 <= i < j ==> (#[trigger] tags@[i]).1 is Ok
                    }
                },
            },
    {
        if info.valid && info.data is Some {
            let d = info.data->Some_0;
            if let (Some(tags), Some((keys, vals)), true) = (self.tags, d.tags, info.standard) {
                let v0 = out.mention(self.uid);
                let v1 = match (self.attrs, info.standard) {
                    (Some(Ok(literal)), true) => v0.assert_eq(
                        Term::App(d.attrs, Arc::new(Term::Entity(self.uid))),
                        literal,
                    ),
                    _ => v0,
                };
                let v2 = match self.ancestors {
                    Some(ancs) => v1.assert_ancestors(
                        self.uid,
                        ancs@,
                        d.ancestors@,
                        d.ancestors@.len(),
                    ),
                    None => v1,
                };
                let v3 = v2.assert_eq(
                    Term::App(keys, Arc::new(Term::Entity(self.uid))),
                    tag_names(tags@, tags@.len()),
                );
                lemma_tags_footprint(v3, self.uid, tags@, vals, tags@.len());
            }
        }
    }
}

/// The asserts on tags mention nothing more; and when one does not fit.
proof fn lemma_tags_footprint(
    v: AView,
    uid: EntityUid,
    tags: Seq<(String, Result<Term, String>)>,
    vals: u64,
    n: nat,
)
    requires
        n <= tags.len(),
    ensures
        match v.assert_tags(uid, tags, vals, n) {
            Ok(after) => after.footprint == v.footprint && forall|j: int|
                0 <= j < n ==> (#[trigger] tags[j]).1 is Ok,
            Err((key, why)) => exists|j: int|
                0 <= j < n && (#[trigger] tags[j]).1 == Err::<Term, String>(why) && tags[j].0@
                    == key && forall|i: int| 0 <= i < j ==> (#[trigger] tags[i]).1 is Ok,
        },
    decreases n,
{
    if n > 0 {
        lemma_tags_footprint(v, uid, tags, vals, (n - 1) as nat);
    }
}

/// The asserts about assumed entities hold in a model exactly if its store
/// agrees with each of them.
pub proof fn law_entities_agree(
    es: Seq<PartialEntity>,
    infos: Seq<EntityInfo>,
    n: nat,
    s: Store,
    m: Model,
)
    requires
        n <= es.len(),
        s.models(m),
    ensures
        entities_asserted(es, infos, n) matches Ok(v) ==> (Term::all_hold(v.asserts, m)
            <==> forall|i: int| 0 <= i < n ==> (#[trigger] es[i]).agrees(infos[i], s)),
    decreases n,
{
    if n > 0 {
        law_entities_agree(es, infos, (n - 1) as nat, s, m);
        if let Ok(v) = entities_asserted(es, infos, n) {
            let before = entities_asserted(es, infos, (n - 1) as nat)->Ok_0;
            es[n - 1].law_asserts_say_that_the_store_agrees(infos[n - 1], before, s, m);
            assert((forall|i: int| 0 <= i < n ==> (#[trigger] es[i]).agrees(infos[i], s)) <==> es[n
                - 1].agrees(infos[n - 1], s) && forall|i: int|
                0 <= i < n - 1 ==> (#[trigger] es[i]).agrees(infos[i], s));
        }
    }
}

impl PartialRequest {
    /// The symbolic request of the environment agrees with the request: the
    /// types and the action are those of the environment, and what is provided
    /// of the principal, the resource and the context is so.
    pub open spec fn agrees(&self, env: RequestEnv, sym: SymRequest, s: Store) -> bool {
        &&& self.principal_type@ == env.principal@
        &&& self.action.ty@ == env.action.ty@ && self.action.eid@ == env.action.eid@
        &&& self.resource_type@ == env.resource@
        &&& self.principal_eid matches Some(eid) ==> sym.principal.thing(s) == Thing::Entity(
            env.principal@,
            eid@,
        )
        &&& self.resource_eid matches Some(eid) ==> sym.resource.thing(s) == Thing::Entity(
            env.resource@,
            eid@,
        )
        &&& self.context matches Some(Ok(literal)) ==> sym.context.thing(s) == literal.thing(s)
    }

    /// The asserts about an assumed request hold in a model exactly if the
    /// symbolic request agrees with it.
    pub proof fn law_asserts_say_that_the_request_agrees(
        &self,
        env: RequestEnv,
        sym: SymRequest,
        s: Store,
        m: Model,
    )
        requires
            s.models(m),
        ensures
            Term::all_hold(self.asserted(env, sym).asserts, m) <==> self.agrees(env, sym, s),
    {
        let v0 = AView { asserts: seq![], footprint: seq![] };
        assert(self.action@ == env.action@ <==> self.action.ty@ == env.action.ty@
            && self.action.eid@ == env.action.eid@);
        assert(Term::all_hold(v0.asserts, m));
        if !self.occurs_in(env) {
            let v = self.asserted(env, sym);
            assert(v.asserts[0] == Term::Bool(false));
            assert(!v.asserts[0].holds(m));
        } else {
            let v1 = match self.principal_eid {
                Some(eid) => {
                    let uid = EntityUid { ty: self.principal_type, eid };
                    v0.mention(uid).assert_eq(sym.principal, Term::Entity(uid))
                },
                None => v0,
            };
            if let Some(eid) = self.principal_eid {
                let uid = EntityUid { ty: self.principal_type, eid };
                lemma_eq(v0.mention(uid), sym.principal, Term::Entity(uid), s, m);
                assert(Term::Entity(uid).thing(s) == Thing::Entity(uid.ty@, uid.eid@));
            }
            let v2 = match self.resource_eid {
                Some(eid) => {
                    let uid = EntityUid { ty: self.resource_type, eid };
                    v1.mention(uid).assert_eq(sym.resource, Term::Entity(uid))
                },
                None => v1,
            };
            if let Some(eid) = self.resource_eid {
                let uid = EntityUid { ty: self.resource_type, eid };
                lemma_eq(v1.mention(uid), sym.resource, Term::Entity(uid), s, m);
                assert(Term::Entity(uid).thing(s) == Thing::Entity(uid.ty@, uid.eid@));
            }
            if let Some(Ok(literal)) = self.context {
                lemma_eq(v2, sym.context, literal, s, m);
            }
        }
    }

    /// A request is refused exactly where it can occur and its context does not
    /// fit, or the schema does not have the environment that the context is to
    /// fit.
    pub proof fn law_request_is_accepted_or_refused(&self, env: RequestEnv, schema: Schema)
        ensures
            ({
                let occurs = self.principal_type@ == env.principal@ && self.action@ == env.action@
                    && self.resource_type@ == env.resource@;
                let known = exists|i: int|
                    0 <= i < schema.envs().len() && (#[trigger] schema.envs()[i])@ == env@;
                &&& self.accepted(env, schema) <==> !occurs || self.context is None || (known
                    && self.context matches Some(Ok(_)))
                &&& forall|e: EvaluationError| #[trigger]
                    self.refused(env, schema, e) ==> !self.accepted(env, schema) && match e {
                        EvaluationError::RequestEnvNotFound(_) => !known,
                        EvaluationError::InvalidRequest(m) => known && (
                        self.context matches Some(Err(why)) && m@ == "context: "@ + why@),
                        _ => false,
                    }
            }),
    {
        let views = crate::types::env_views(schema.envs());
        assert(views.contains(env@) <==> exists|i: int|
            0 <= i < schema.envs().len() && (#[trigger] schema.envs()[i])@ == env@) by {
            if views.contains(env@) {
                let i = views.index_of(env@);
                assert(schema.envs()[i]@ == env@);
            }
            if exists|i: int| 0 <= i < schema.envs().len() && (#[trigger] schema.envs()[i])@ == env@ {
                let i = choose|i: int|
                    0 <= i < schema.envs().len() && (#[trigger] schema.envs()[i])@ == env@;
                assert(views[i] == env@);
            }
        }
    }
}

/// What an assumption about entities adds to the asserts: they hold in a model
/// where they held and the store agrees with each of the entities, which all
/// exist.
pub proof fn law_assumed_entities_hold<
    K: Fn(&Policy, &RequestEnv) -> Checked,
    C: Fn(&Expr<()>) -> Result<Compiled, String>,
    P: Fn(&PolicySet, &RequestEnv) -> Result<CompiledSet, PolicyError>,
    I: Fn(&EntityUid) -> EntityInfo,
>(
    backend: Backend<K, C, P, I>,
    es: Arc<Vec<PartialEntity>>,
    env: RequestEnv,
    schema: Schema,
    sym: Sym,
    before: Terms,
    after: Terms,
    s: Store,
    m: Model,
)
    requires
        s.models(m),
        backend.gives(Assumption::Entities(es), env, schema, sym, before, Ok(()), after),
    ensures
        exists|infos: Seq<EntityInfo>| #[trigger]
            backend.describes(es@, infos) && infos.len() == es@.len() && (Term::all_hold(
                after.asserts,
                m,
            ) <==> Term::all_hold(before.asserts, m) && forall|i: int|
                0 <= i < es@.len() ==> (#[trigger] es@[i]).agrees(infos[i], s) && exists_in(
                    es@[i].uid,
                    m,
                )),
{
    let infos = choose|infos: Seq<EntityInfo>| #[trigger]
        backend.describes(es@, infos) && match entities_asserted(es@, infos, infos.len()) {
            Ok(v) => infos.len() == es@.len() && after == before.plus(
                v.asserts + existing(es@),
                v.footprint.to_set(),
            ),
            Err(_) => false,
        };
    let v = entities_asserted(es@, infos, infos.len())->Ok_0;
    law_entities_agree(es@, infos, infos.len(), s, m);
    Term::lemma_all_hold_append(before.asserts, v.asserts + existing(es@), m);
    Term::lemma_all_hold_append(v.asserts, existing(es@), m);
    let there = existing(es@);
    assert(Term::all_hold(there, m) <==> forall|i: int|
        0 <= i < es@.len() ==> exists_in((#[trigger] es@[i]).uid, m)) by {
        if Term::all_hold(there, m) {
            assert forall|i: int| 0 <= i < es@.len() implies exists_in(
                (#[trigger] es@[i]).uid,
                m,
            ) by {
                assert(there[i].holds(m));
            }
        }
        if forall|i: int| 0 <= i < es@.len() ==> exists_in((#[trigger] es@[i]).uid, m) {
            assert forall|i: int| 0 <= i < there.len() implies (#[trigger] there[i]).holds(m) by {
                assert(exists_in(es@[i].uid, m));
            }
        }
    }
    if Term::all_hold(after.asserts, m) {
        assert forall|i: int| 0 <= i < es@.len() implies (#[trigger] es@[i]).agrees(infos[i], s)
            && exists_in(es@[i].uid, m) by {}
    }
}

/// The entity exists in the model.
pub open spec fn exists_in(uid: EntityUid, m: Model) -> bool {
    (m.truth)(Term::Exists(uid.ty, Arc::new(Term::Entity(uid))))
}

/// What an assumption about a request adds to the asserts: they hold in a model
/// where they held and the symbolic request agrees with the request.
pub proof fn law_assumed_request_holds<
    K: Fn(&Policy, &RequestEnv) -> Checked,
    C: Fn(&Expr<()>) -> Result<Compiled, String>,
    P: Fn(&PolicySet, &RequestEnv) -> Result<CompiledSet, PolicyError>,
    I: Fn(&EntityUid) -> EntityInfo,
>(
    backend: Backend<K, C, P, I>,
    request: Arc<PartialRequest>,
    env: RequestEnv,
    schema: Schema,
    sym: Sym,
    before: Terms,
    after: Terms,
    s: Store,
    m: Model,
)
    requires
        s.models(m),
        backend.gives(Assumption::Request(request), env, schema, sym, before, Ok(()), after),
    ensures
        Term::all_hold(after.asserts, m) <==> Term::all_hold(before.asserts, m) && request.agrees(
            env,
            backend.request,
            s,
        ),
{
    request.law_asserts_say_that_the_request_agrees(env, backend.request, s, m);
    Term::lemma_all_hold_append(
        before.asserts,
        request.asserted(env, backend.request).asserts,
        m,
    );
}

} // verus!
