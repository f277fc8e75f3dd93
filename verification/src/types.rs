//! Types of expressions, and request environments.

use std::sync::Arc;

use vstd::prelude::*;

use crate::ast::{share, Data, EntityUid};

verus! {

/// The boolean types: any boolean, or one of them alone.
#[derive(Clone, Copy, Debug, PartialEq, Eq, Structural)]
pub enum BoolType {
    AnyBool,
    True,
    False,
}

/// The type of an expression.
#[derive(Debug)]
pub enum Type {
    /// No value.
    Never,
    Bool(BoolType),
    Long,
    String,
    /// A set; of nothing known if it is empty.
    SetOf(Option<Arc<Type>>),
    /// An entity of one of these types.
    Entity(Arc<Vec<String>>),
    /// A record with these attributes, each required or optional.
    RecordOf(Arc<Vec<(String, Type, bool)>>),
    /// A value of an extension type.
    Extension(String),
}

impl Data for Type {
    fn dup(&self) -> (r: Self) {
        match self {
            Type::Never => Type::Never,
            Type::Bool(b) => Type::Bool(*b),
            Type::Long => Type::Long,
            Type::String => Type::String,
            Type::SetOf(Some(t)) => Type::SetOf(Some(share(t))),
            Type::SetOf(None) => Type::SetOf(None),
            Type::Entity(tys) => Type::Entity(share(tys)),
            Type::RecordOf(attrs) => Type::RecordOf(share(attrs)),
            Type::Extension(name) => Type::Extension(name.clone()),
        }
    }
}

impl<T: Data> Data for Option<T> {
    fn dup(&self) -> (r: Self) {
        match self {
            Some(t) => Some(t.dup()),
            None => None,
        }
    }
}

/// The types a request can have: those of the principal and the resource, and
/// the action.
#[derive(Debug)]
pub struct RequestEnv {
    pub principal: String,
    pub action: EntityUid,
    pub resource: String,
}

impl Data for RequestEnv {
    fn dup(&self) -> (r: Self) {
        RequestEnv {
            principal: self.principal.clone(),
            action: self.action.dup(),
            resource: self.resource.clone(),
        }
    }
}

impl View for RequestEnv {
    type V = (Seq<char>, (Seq<char>, Seq<char>), Seq<char>);

    open spec fn view(&self) -> (Seq<char>, (Seq<char>, Seq<char>), Seq<char>) {
        (self.principal@, self.action@, self.resource@)
    }
}

impl PartialEq for RequestEnv {
    fn eq(&self, other: &Self) -> (r: bool) {
        self.principal == other.principal && self.action == other.action && self.resource
            == other.resource
    }
}

impl vstd::std_specs::cmp::PartialEqSpecImpl for RequestEnv {
    open spec fn obeys_eq_spec() -> bool {
        true
    }

    open spec fn eq_spec(&self, other: &Self) -> bool {
        self@ == other@
    }
}

/// A schema: its canonical text, the request environments that it declares,
/// each once, and its actions.
#[derive(Debug)]
pub struct Schema {
    text: String,
    request_envs: Vec<RequestEnv>,
    actions: Vec<EntityUid>,
}

/// The names of `envs`.
pub open spec fn env_views(envs: Seq<RequestEnv>) -> Seq<
    (Seq<char>, (Seq<char>, Seq<char>), Seq<char>),
> {
    envs.map_values(|e: RequestEnv| e@)
}

impl Schema {
    /// The canonical text.
    pub closed spec fn text(&self) -> Seq<char> {
        self.text@
    }

    /// The request environments.
    pub closed spec fn envs(&self) -> Seq<RequestEnv> {
        self.request_envs@
    }

    /// The actions.
    pub closed spec fn action_uids(&self) -> Seq<EntityUid> {
        self.actions@
    }

    /// The schemas are the same.
    pub open spec fn same_as(&self, other: &Schema) -> bool {
        self.text() == other.text()
    }

    /// No environment is listed twice.
    #[verifier::type_invariant]
    spec fn envs_are_distinct(self) -> bool {
        env_views(self.request_envs@).no_duplicates()
    }

    /// The schema with this text, these actions and these environments, of
    /// which only the first of equal ones is kept.
    pub fn new(text: String, envs: Vec<RequestEnv>, actions: Vec<EntityUid>) -> (r: Schema)
        ensures
            r.text() == text@,
            r.action_uids() == actions@,
            env_views(r.envs()).no_duplicates(),
            forall|e: RequestEnv| #[trigger]
                env_views(envs@).contains(e@) <==> env_views(r.envs()).contains(e@),
            env_views(envs@).no_duplicates() ==> r.envs() == envs@,
    {
        let ghost all = env_views(envs@);
        let mut kept: Vec<RequestEnv> = Vec::new();
        let mut i: usize = 0;
        while i < envs.len()
            invariant
                i <= envs@.len(),
                all == env_views(envs@),
                env_views(kept@).no_duplicates(),
                forall|e: RequestEnv| #[trigger]
                    all.take(i as int).contains(e@) <==> env_views(kept@).contains(e@),
                all.no_duplicates() ==> kept@ == envs@.take(i as int),
            decreases envs@.len() - i,
        {
            let ghost before = kept@;
            let mut j: usize = 0;
            let mut found = false;
            while j < kept.len() && !found
                invariant
                    j <= kept@.len(),
                    i < envs@.len(),
                    found ==> env_views(kept@).contains(envs@[i as int]@),
                    !found ==> forall|k: int|
                        0 <= k < j ==> (#[trigger] kept@[k])@ != envs@[i as int]@,
                decreases kept@.len() - j + if found {
                    0int
                } else {
                    1int
                },
            {
                if kept[j] == envs[i] {
                    assert(env_views(kept@)[j as int] == envs@[i as int]@);
                    found = true;
                } else {
                    j += 1;
                }
            }
            if !found {
                kept.push(envs[i].dup());
            }
            proof {
                let ks = env_views(before);
                let e0 = envs@[i as int]@;
                let t = all.take(i + 1);
                assert(t =~= all.take(i as int).push(e0));
                if found {
                    let k = choose|k: int| 0 <= k < ks.len() && ks[k] == e0;
                    assert(ks.contains(e0));
                    let e = envs@[i as int];
                    assert(all.take(i as int).contains(e@));
                    let m = choose|m: int| 0 <= m < i && all.take(i as int)[m] == e0;
                    assert(all[m] == all[i as int]);
                } else {
                    assert(env_views(kept@) =~= ks.push(e0));
                    assert forall|k: int| 0 <= k < ks.len() implies #[trigger] ks[k] != e0 by {
                        assert(before[k]@ == ks[k]);
                    }
                    assert(envs@.take(i + 1) =~= envs@.take(i as int).push(envs@[i as int]));
                }
                assert forall|e: RequestEnv| #[trigger]
                    t.contains(e@) <==> env_views(kept@).contains(e@) by {
                    let old_t = all.take(i as int);
                    assert(old_t.contains(e@) <==> ks.contains(e@));
                    if t.contains(e@) {
                        let m = choose|m: int| 0 <= m < t.len() && t[m] == e@;
                        if m < i {
                            assert(old_t[m] == e@);
                            let k = choose|k: int| 0 <= k < ks.len() && ks[k] == e@;
                            assert(env_views(kept@)[k] == e@);
                        } else if !found {
                            assert(env_views(kept@)[ks.len() as int] == e@);
                        }
                    }
                    if env_views(kept@).contains(e@) {
                        let k = choose|k: int|
                            0 <= k < env_views(kept@).len() && env_views(kept@)[k] == e@;
                        if k < ks.len() {
                            assert(ks[k] == e@);
                            let m = choose|m: int| 0 <= m < old_t.len() && old_t[m] == e@;
                            assert(t[m] == e@);
                        } else {
                            assert(t[i as int] == e@);
                        }
                    }
                }
            }
            i += 1;
        }
        proof {
            assert(all.take(i as int) =~= all);
            assert(envs@.take(i as int) =~= envs@);
        }
        Schema { text, request_envs: kept, actions }
    }

    /// The request environments.
    pub fn request_envs(&self) -> (r: &Vec<RequestEnv>)
        ensures
            r@ == self.envs(),
            env_views(self.envs()).no_duplicates(),
    {
        proof {
            use_type_invariant(&*self);
        }
        &self.request_envs
    }

    /// Whether the environment is one of the schema.
    pub fn has_env(&self, env: &RequestEnv) -> (r: bool)
        ensures
            r == env_views(self.envs()).contains(env@),
    {
        let mut i: usize = 0;
        while i < self.request_envs.len()
            invariant
                i <= self.request_envs@.len(),
                forall|j: int| 0 <= j < i ==> (#[trigger] env_views(self.envs())[j]) != env@,
            decreases self.request_envs@.len() - i,
        {
            if self.request_envs[i] == *env {
                assert(env_views(self.envs())[i as int] == env@);
                return true;
            }
            i += 1;
        }
        false
    }

    /// Whether `action` is an action of the schema.
    pub fn has_action(&self, action: &EntityUid) -> (r: bool)
        ensures
            r == exists|i: int|
                0 <= i < self.action_uids().len() && (#[trigger] self.action_uids()[i])@
                    == action@,
    {
        let mut i: usize = 0;
        while i < self.actions.len()
            invariant
                i <= self.actions@.len(),
                forall|j: int| 0 <= j < i ==> (#[trigger] self.action_uids()[j])@ != action@,
            decreases self.actions@.len() - i,
        {
            if self.actions[i] == *action {
                assert(self.action_uids()[i as int]@ == action@);
                return true;
            }
            i += 1;
        }
        false
    }

    /// Whether the schemas are the same: they have the same canonical text.
    pub fn same(&self, other: &Schema) -> (r: bool)
        ensures
            r == self.same_as(other),
    {
        self.text == other.text
    }
}

} // verus!
