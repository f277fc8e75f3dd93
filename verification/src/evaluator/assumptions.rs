//! Assumptions about concrete (or partially known) entity data and requests.
//!
//! These are *open-world*: an assumption about an entity constrains the
//! symbolic store only at that entity. Entities that are not mentioned stay
//! fully symbolic.

use std::sync::Arc;

use vstd::prelude::*;

use crate::ast::{Data, EntityUid};
use crate::evaluator::err::EvaluationError;
use crate::evaluator::term::Term;
use crate::types::{RequestEnv, Schema};

verus! {

/// An entity of which the attributes, the ancestors and the tags may be known.
/// The literals are terms, or the reason why the value does not fit its type.
#[derive(Debug)]
pub struct PartialEntity {
    pub uid: EntityUid,
    /// How the entity is written.
    pub name: String,
    /// The attributes, as one record literal.
    pub attrs: Option<Result<Term, String>>,
    pub ancestors: Option<Vec<EntityUid>>,
    pub tags: Option<Vec<(String, Result<Term, String>)>>,
}

/// The functions of the symbolic store for an entity type, by their numbers.
#[derive(Debug)]
pub struct SymEntityData {
    pub attrs: u64,
    /// For each ancestor type.
    pub ancestors: Vec<(String, u64)>,
    /// The keys and the values of the tags, if the type has tags.
    pub tags: Option<(u64, u64)>,
}

/// What the schema says of an entity.
#[derive(Debug)]
pub struct EntityInfo {
    /// Its type is declared, and it is a member if the type is enumerated.
    pub valid: bool,
    pub data: Option<SymEntityData>,
    /// Its type is a standard entity type, which has attributes.
    pub standard: bool,
    /// Its type declares the type of its tags.
    pub tagged: bool,
}

/// Boolean terms, plus the footprint terms they mention.
#[derive(Debug)]
pub struct Asserted {
    pub asserts: Vec<Term>,
    pub footprint: Vec<Term>,
}

/// What [`Asserted`] is.
#[verifier::ext_equal]
pub struct AView {
    pub asserts: Seq<Term>,
    pub footprint: Seq<Term>,
}

impl Asserted {
    /// The terms.
    pub open spec fn view(&self) -> AView {
        AView { asserts: self.asserts@, footprint: self.footprint@ }
    }

    /// No terms.
    pub fn new() -> (r: Asserted)
        ensures
            r@ == (AView { asserts: seq![], footprint: seq![] }),
    {
        let r = Asserted { asserts: Vec::new(), footprint: Vec::new() };
        assert(r@ =~= AView { asserts: seq![], footprint: seq![] });
        r
    }

    /// The term of the entity `uid`, which joins the footprint.
    fn uid_term(&mut self, uid: &EntityUid) -> (r: Term)
        ensures
            r == Term::Entity(*uid),
            final(self)@ == old(self)@.mention(*uid),
    {
        let ghost before = self@;
        self.footprint.push(Term::SomeOf(Arc::new(Term::Entity(uid.dup()))));
        assert(self@ =~= before.mention(*uid));
        Term::Entity(uid.dup())
    }

    fn assert_eq(&mut self, a: Term, b: Term)
        ensures
            final(self)@ == old(self)@.assert_eq(a, b),
    {
        let ghost before = self@;
        self.asserts.push(Term::Eq(Arc::new(a), Arc::new(b)));
        assert(self@ =~= before.assert_eq(a, b));
    }
}

impl AView {
    /// One more entity is mentioned.
    pub open spec fn mention(self, uid: EntityUid) -> AView {
        AView {
            asserts: self.asserts,
            footprint: self.footprint.push(Term::SomeOf(Arc::new(Term::Entity(uid)))),
        }
    }

    /// One more equation.
    pub open spec fn assert_eq(self, a: Term, b: Term) -> AView {
        AView {
            asserts: self.asserts.push(Term::Eq(Arc::new(a), Arc::new(b))),
            footprint: self.footprint,
        }
    }

    /// The entities among the first `n` of `ancs` that are of type `ty` are
    /// mentioned; the set of them.
    pub open spec fn ancestors_of(self, ancs: Seq<EntityUid>, n: nat, ty: String) -> (AView, Term)
        decreases n,
    {
        if n == 0 || n > ancs.len() {
            (self, Term::NoEntities(ty))
        } else {
            let (view, set) = self.ancestors_of(ancs, (n - 1) as nat, ty);
            let anc = ancs[n - 1];
            if anc.ty@ == ty@ {
                (view.mention(anc), Term::Insert(Arc::new(set), Arc::new(Term::Entity(anc))))
            } else {
                (view, set)
            }
        }
    }

    /// The ancestors of `uid` are `ancs`, for each of the first `n` ancestor
    /// types.
    pub open spec fn assert_ancestors(
        self,
        uid: EntityUid,
        ancs: Seq<EntityUid>,
        types: Seq<(String, u64)>,
        n: nat,
    ) -> AView
        decreases n,
    {
        if n == 0 || n > types.len() {
            self
        } else {
            let before = self.assert_ancestors(uid, ancs, types, (n - 1) as nat);
            let (ty, f) = types[n - 1];
            let (view, set) = before.ancestors_of(ancs, ancs.len(), ty);
            view.assert_eq(Term::App(f, Arc::new(Term::Entity(uid))), set)
        }
    }

    /// The values of the first `n` tags of `uid`, up to one that does not fit.
    pub open spec fn assert_tags(
        self,
        uid: EntityUid,
        tags: Seq<(String, Result<Term, String>)>,
        vals: u64,
        n: nat,
    ) -> Result<AView, (Seq<char>, String)>
        decreases n,
    {
        if n == 0 || n > tags.len() {
            Ok(self)
        } else {
            match self.assert_tags(uid, tags, vals, (n - 1) as nat) {
                Ok(before) => match tags[n - 1].1 {
                    Ok(literal) => Ok(
                        before.assert_eq(
                            Term::App(
                                vals,
                                Arc::new(
                                    Term::TagOf(
                                        Arc::new(Term::Entity(uid)),
                                        Arc::new(Term::Text(tags[n - 1].0)),
                                    ),
                                ),
                            ),
                            literal,
                        ),
                    ),
                    Err(m) => Err((tags[n - 1].0@, m)),
                },
                Err(e) => Err(e),
            }
        }
    }
}

/// The set of the names of the first `n` tags.
pub open spec fn tag_names(tags: Seq<(String, Result<Term, String>)>, n: nat) -> Term
    decreases n,
{
    if n == 0 || n > tags.len() {
        Term::NoTexts
    } else {
        Term::Insert(
            Arc::new(tag_names(tags, (n - 1) as nat)),
            Arc::new(Term::Text(tags[n - 1].0)),
        )
    }
}

impl PartialEntity {
    /// The asserts that the symbolic store agrees with the entity on what is
    /// known of it, or the reason why it does not fit the schema.
    pub open spec fn asserted(&self, info: EntityInfo, out: AView) -> Result<AView, Seq<char>> {
        let uid = Term::Entity(self.uid);
        if !info.valid {
            Err(
                "entity `"@ + self.name@
                    + "` is not valid for the schema (unknown type, or not a member of an enumerated type)"@,
            )
        } else {
            match info.data {
                None => Err("entity type `"@ + self.uid.ty@ + "` not in the schema"@),
                Some(data) => {
                    let v0 = out.mention(self.uid);
                    match (self.attrs, info.standard) {
                        (Some(Err(m)), true) => Err(
                            "attributes of `"@ + self.name@ + "`: "@ + m@,
                        ),
                        _ => {
                            let v1 = match (self.attrs, info.standard) {
                                (Some(Ok(literal)), true) => v0.assert_eq(
                                    Term::App(data.attrs, Arc::new(uid)),
                                    literal,
                                ),
                                _ => v0,
                            };
                            let v2 = match self.ancestors {
                                Some(ancs) => v1.assert_ancestors(
                                    self.uid,
                                    ancs@,
                                    data.ancestors@,
                                    data.ancestors@.len(),
                                ),
                                None => v1,
                            };
                            match (self.tags, data.tags, info.standard) {
                                (Some(tags), Some((keys, vals)), true) => if !info.tagged {
                                    Err(
                                        "entity `"@ + self.name@
                                            + "` has tags but its type declares none"@,
                                    )
                                } else {
                                    let v3 = v2.assert_eq(
                                        Term::App(keys, Arc::new(uid)),
                                        tag_names(tags@, tags@.len()),
                                    );
                                    match v3.assert_tags(self.uid, tags@, vals, tags@.len()) {
                                        Ok(v4) => Ok(v4),
                                        Err((key, m)) => Err(
                                            "tag `"@ + key + "` of `"@ + self.name@ + "`: "@ + m@,
                                        ),
                                    }
                                },
                                _ => Ok(v2),
                            }
                        },
                    }
                },
            }
        }
    }
}

/// The set of those of `ancs` that are of type `ty`, each of which joins the
/// footprint.
fn ancestors_of(ancs: &Vec<EntityUid>, ty: &String, out: &mut Asserted) -> (r: Term)
    ensures
        (final(out)@, r) == old(out)@.ancestors_of(ancs@, ancs@.len(), *ty),
{
    let mut set = Term::NoEntities(ty.clone());
    let mut i: usize = 0;
    while i < ancs.len()
        invariant
            i <= ancs@.len(),
            (out@, set) == old(out)@.ancestors_of(ancs@, i as nat, *ty),
        decreases ancs@.len() - i,
    {
        if ancs[i].ty == *ty {
            let t = out.uid_term(&ancs[i]);
            set = Term::Insert(Arc::new(set), Arc::new(t));
        }
        i += 1;
    }
    set
}

/// The set of the names of the tags.
fn tag_name_set(tags: &Vec<(String, Result<Term, String>)>) -> (r: Term)
    ensures
        r == tag_names(tags@, tags@.len()),
{
    let mut set = Term::NoTexts;
    let mut i: usize = 0;
    while i < tags.len()
        invariant
            i <= tags@.len(),
            set == tag_names(tags@, i as nat),
        decreases tags@.len() - i,
    {
        set = Term::Insert(Arc::new(set), Arc::new(Term::Text(tags[i].0.clone())));
        i += 1;
    }
    set
}

impl AView {
    /// Once a tag does not fit, it stays so.
    proof fn lemma_tags_err(
        self,
        uid: EntityUid,
        tags: Seq<(String, Result<Term, String>)>,
        vals: u64,
        i: nat,
        n: nat,
    )
        requires
            i <= n <= tags.len(),
            self.assert_tags(uid, tags, vals, i) is Err,
        ensures
            self.assert_tags(uid, tags, vals, n) == self.assert_tags(uid, tags, vals, i),
        decreases n,
    {
        if i < n {
            self.lemma_tags_err(uid, tags, vals, i, (n - 1) as nat);
        }
    }
}

/// Asserts that the symbolic store agrees with `entity`: the attributes, the
/// ancestors of each declared ancestor type, and the tags, each only where the
/// entity provides them.
pub fn entity_asserts(entity: &PartialEntity, info: &EntityInfo, out: &mut Asserted) -> (r: Result<
    (),
    EvaluationError,
>)
    ensures
        match r {
            Ok(_) => entity.asserted(*info, old(out)@) == Ok::<AView, Seq<char>>(final(out)@),
            Err(EvaluationError::InvalidEntities(m)) => entity.asserted(*info, old(out)@) == Err::<
                AView,
                Seq<char>,
            >(m@),
            Err(_) => false,
        },
{
    if !info.valid {
        let m = "entity `".to_owned().concat(entity.name.as_str()).concat(
            "` is not valid for the schema (unknown type, or not a member of an enumerated type)",
        );
        return Err(EvaluationError::InvalidEntities(m));
    }
    let data = match &info.data {
        Some(d) => d,
        None => {
            let m = "entity type `".to_owned().concat(entity.uid.ty.as_str()).concat(
                "` not in the schema",
            );
            return Err(EvaluationError::InvalidEntities(m));
        },
    };
    let uid = out.uid_term(&entity.uid);
    if info.standard {
        match &entity.attrs {
            Some(Ok(literal)) => {
                out.assert_eq(Term::App(data.attrs, Arc::new(uid.dup())), literal.dup());
            },
            Some(Err(e)) => {
                let m = "attributes of `".to_owned().concat(entity.name.as_str()).concat(
                    "`: ",
                ).concat(e.as_str());
                return Err(EvaluationError::InvalidEntities(m));
            },
            None => {},
        }
    }
    let ghost v1 = out@;
    if let Some(ancs) = &entity.ancestors {
        let mut i: usize = 0;
        while i < data.ancestors.len()
            invariant
                i <= data.ancestors@.len(),
                uid == Term::Entity(entity.uid),
                out@ == v1.assert_ancestors(entity.uid, ancs@, data.ancestors@, i as nat),
            decreases data.ancestors@.len() - i,
        {
            let set = ancestors_of(ancs, &data.ancestors[i].0, out);
            out.assert_eq(Term::App(data.ancestors[i].1, Arc::new(uid.dup())), set);
            i += 1;
        }
    }
    if info.standard {
        if let (Some(tags), Some((keys, vals))) = (&entity.tags, &data.tags) {
            if !info.tagged {
                let m = "entity `".to_owned().concat(entity.name.as_str()).concat(
                    "` has tags but its type declares none",
                );
                return Err(EvaluationError::InvalidEntities(m));
            }
            out.assert_eq(Term::App(*keys, Arc::new(uid.dup())), tag_name_set(tags));
            let ghost v3 = out@;
            let mut i: usize = 0;
            while i < tags.len()
                invariant
                    i <= tags@.len(),
                    uid == Term::Entity(entity.uid),
                    v3.assert_tags(entity.uid, tags@, *vals, i as nat) == Ok::<
                        AView,
                        (Seq<char>, String),
                    >(out@),
                    info.valid && info.standard && info.tagged,
                    info.data == Some(*data),
                    entity.tags == Some(*tags),
                    data.tags == Some((*keys, *vals)),
                    entity.asserted(*info, old(out)@) == (match v3.assert_tags(
                        entity.uid,
                        tags@,
                        *vals,
                        tags@.len(),
                    ) {
                        Ok(v4) => Ok::<AView, Seq<char>>(v4),
                        Err((key, m)) => Err(
                            "tag `"@ + key + "` of `"@ + entity.name@ + "`: "@ + m@,
                        ),
                    }),
                decreases tags@.len() - i,
            {
                match &tags[i].1 {
                    Ok(literal) => {
                        let tag = Term::TagOf(
                            Arc::new(uid.dup()),
                            Arc::new(Term::Text(tags[i].0.clone())),
                        );
                        out.assert_eq(Term::App(*vals, Arc::new(tag)), literal.dup());
                    },
                    Err(e) => {
                        proof {
                            v3.lemma_tags_err(
                                entity.uid,
                                tags@,
                                *vals,
                                (i + 1) as nat,
                                tags@.len(),
                            );
                        }
                        let m = "tag `".to_owned().concat(tags[i].0.as_str()).concat(
                            "` of `",
                        ).concat(entity.name.as_str()).concat("`: ").concat(e.as_str());
                        return Err(EvaluationError::InvalidEntities(m));
                    },
                }
                i += 1;
            }
        }
    }
    Ok(())
}

/// A request of which the ids of the principal and the resource and the
/// context may be known. The context is a term, or the reason why it does not
/// fit its type.
#[derive(Debug)]
pub struct PartialRequest {
    pub principal_type: String,
    pub principal_eid: Option<String>,
    pub action: EntityUid,
    pub resource_type: String,
    pub resource_eid: Option<String>,
    pub context: Option<Result<Term, String>>,
}

/// The symbolic request.
#[derive(Debug)]
pub struct SymRequest {
    pub principal: Term,
    pub resource: Term,
    pub context: Term,
}

impl PartialRequest {
    /// The request can occur in the environment.
    pub open spec fn occurs_in(&self, env: RequestEnv) -> bool {
        self.principal_type@ == env.principal@ && self.action@ == env.action@
            && self.resource_type@ == env.resource@
    }

    /// The asserts that the symbolic request agrees with the request on the
    /// parts it provides: `false` in an environment in which it cannot occur.
    pub open spec fn asserted(&self, env: RequestEnv, sym: SymRequest) -> AView {
        let v0 = AView { asserts: seq![], footprint: seq![] };
        if !self.occurs_in(env) {
            AView { asserts: seq![Term::Bool(false)], footprint: seq![] }
        } else {
            let v1 = match self.principal_eid {
                Some(eid) => {
                    let uid = EntityUid { ty: self.principal_type, eid };
                    v0.mention(uid).assert_eq(sym.principal, Term::Entity(uid))
                },
                None => v0,
            };
            let v2 = match self.resource_eid {
                Some(eid) => {
                    let uid = EntityUid { ty: self.resource_type, eid };
                    v1.mention(uid).assert_eq(sym.resource, Term::Entity(uid))
                },
                None => v1,
            };
            match self.context {
                Some(Ok(literal)) => v2.assert_eq(sym.context, literal),
                _ => v2,
            }
        }
    }
}

impl PartialRequest {
    /// The request can be assumed: a context that is provided fits the type
    /// that the schema gives it in the environment.
    pub open spec fn accepted(&self, env: RequestEnv, schema: Schema) -> bool {
        self.occurs_in(env) && self.context is Some ==> self.context->Some_0 is Ok
            && crate::types::env_views(schema.envs()).contains(env@)
    }

    /// The request cannot be assumed, which is the error `e`: the schema does
    /// not declare the environment, or the context does not fit its type.
    pub open spec fn refused(&self, env: RequestEnv, schema: Schema, e: EvaluationError) -> bool {
        let known = crate::types::env_views(schema.envs()).contains(env@);
        &&& self.occurs_in(env)
        &&& self.context is Some
        &&& match e {
            EvaluationError::RequestEnvNotFound(missing) => !known && missing@ == env@,
            EvaluationError::InvalidRequest(m) => {
                &&& known
                &&& self.context matches Some(Err(why)) && m@ == "context: "@ + why@
            },
            _ => false,
        }
    }
}

/// Asserts that the symbolic request agrees with `request` on the parts it
/// provides.
pub fn request_asserts(
    request: &PartialRequest,
    env: &RequestEnv,
    sym: &SymRequest,
    schema: &Schema,
) -> (r: Result<Asserted, EvaluationError>)
    ensures
        match r {
            Ok(a) => a@ == request.asserted(*env, *sym) && request.accepted(*env, *schema),
            Err(e) => request.refused(*env, *schema, e),
        },
{
    let mut out = Asserted::new();
    let same_env = request.principal_type == env.principal && request.action == env.action
        && request.resource_type == env.resource;
    if !same_env {
        out.asserts.push(Term::Bool(false));
        assert(out@ =~= request.asserted(*env, *sym));
        return Ok(out);
    }
    if let Some(eid) = &request.principal_eid {
        let uid = EntityUid { ty: request.principal_type.clone(), eid: eid.clone() };
        let term = out.uid_term(&uid);
        out.assert_eq(sym.principal.dup(), term);
    }
    if let Some(eid) = &request.resource_eid {
        let uid = EntityUid { ty: request.resource_type.clone(), eid: eid.clone() };
        let term = out.uid_term(&uid);
        out.assert_eq(sym.resource.dup(), term);
    }
    match &request.context {
        Some(context) => {
            if !schema.has_env(env) {
                return Err(EvaluationError::RequestEnvNotFound(env.dup()));
            }
            match context {
                Ok(literal) => out.assert_eq(sym.context.dup(), literal.dup()),
                Err(e) => {
                    return Err(
                        EvaluationError::InvalidRequest(
                            "context: ".to_owned().concat(e.as_str()),
                        ),
                    );
                },
            }
        },
        None => {},
    }
    Ok(out)
}

} // verus!
