//! Semantic assumptions declared in a schema: `@semantics("<expr>")`
//! annotations on a namespace, an entity type or an action, each a boolean
//! expression the analyses assume `true` in every request environment.
//!
//! An assumption is *global* wherever it is written (the placement is only
//! organisational), so it must typecheck in every request environment of the
//! schema; the author guards it with `if <var> is <type> then .. else true`,
//! and writes an implication `A => B` as `if A then B else true`. Several
//! assumptions on one declaration are conjoined with `&&`.

use vstd::prelude::*;

use crate::ast::{EntityUid, Expr};
use crate::text::escape;

verus! {

/// The annotation key.
pub const SEMANTICS_ANNOTATION: &'static str = "semantics";

/// One `@semantics` assumption.
#[derive(Debug)]
pub struct Assumption {
    /// The declaration the annotation is on, for messages: `namespace k8s`,
    /// `entity type k8s::User`, `action k8s::Action::"get"`.
    pub origin: String,
    /// The expression, assumed `true`.
    pub expression: Expr<()>,
    /// The annotation's value as written.
    pub source: String,
}

/// Why the `@semantics` annotations could not be collected. Every message
/// starts with `the @semantics`, which editors rely on.
#[derive(Debug)]
pub enum SemanticsError {
    /// An annotation's value is not an expression.
    Parse {
        /// The declaration the annotation is on.
        origin: String,
        /// The parser's message.
        message: String,
    },
    /// The schema text does not parse as a fragment (it was accepted as a
    /// schema, so this should not happen; reported rather than silently
    /// dropping the assumptions).
    Fragment(String),
    /// A declaration's namespace does not parse as one (same caveat).
    Namespace(String),
}

impl SemanticsError {
    /// The message for the user.
    pub open spec fn text(&self) -> Seq<char> {
        match self {
            SemanticsError::Parse { origin, message } => "the @semantics annotation on "@ + origin@
                + " does not parse: "@ + message@,
            SemanticsError::Fragment(m) =>
                "the @semantics annotations cannot be read, the schema does not parse as a fragment: "@
                + m@,
            SemanticsError::Namespace(d) =>
                "the @semantics annotations cannot be read, the namespace of "@ + d@
                + " does not parse"@,
        }
    }

    /// The message for the user.
    pub fn describe(&self) -> (r: String)
        ensures
            r@ == self.text(),
    {
        match self {
            SemanticsError::Parse { origin, message } => {
                let s = "the @semantics annotation on ".to_owned();
                let s = s.concat(origin.as_str());
                let s = s.concat(" does not parse: ");
                s.concat(message.as_str())
            },
            SemanticsError::Fragment(m) => {
                let s =
                    "the @semantics annotations cannot be read, the schema does not parse as a fragment: ".to_owned();
                s.concat(m.as_str())
            },
            SemanticsError::Namespace(d) => {
                let s =
                    "the @semantics annotations cannot be read, the namespace of ".to_owned();
                let s = s.concat(d.as_str());
                s.concat(" does not parse")
            },
        }
    }
}

/// `text` starts with `the @semantics`.
pub open spec fn starts_as_semantics(text: Seq<char>) -> bool {
    text.len() >= "the @semantics"@.len() && text.take("the @semantics"@.len() as int)
        == "the @semantics"@
}

/// Every message starts with `the @semantics`.
pub proof fn law_semantics_messages(e: SemanticsError)
    ensures
        starts_as_semantics(e.text()),
{
    reveal_strlit("the @semantics");
    reveal_strlit("the @semantics annotation on ");
    reveal_strlit(
        "the @semantics annotations cannot be read, the schema does not parse as a fragment: ",
    );
    reveal_strlit("the @semantics annotations cannot be read, the namespace of ");
    assert(e.text().take("the @semantics"@.len() as int) =~= "the @semantics"@);
}

/// The annotations of a declaration: keys and values.
pub type Annotations = Vec<(String, String)>;

/// A namespace of a schema fragment: its name (`None` for the empty
/// namespace), its annotations, and those of its entity types and actions.
#[derive(Debug)]
pub struct NamespaceDeclaration {
    pub name: Option<String>,
    pub annotations: Annotations,
    pub entity_types: Vec<(String, Annotations)>,
    pub actions: Vec<(String, Annotations)>,
}

/// The name of an entity type of a schema: its namespace (empty for none) and
/// its last part.
#[derive(Debug)]
pub struct TypeName {
    pub namespace: String,
    pub basename: String,
}

/// An action of a schema: its type and its id.
#[derive(Debug)]
pub struct ActionName {
    pub ty: TypeName,
    pub id: String,
}

impl TypeName {
    /// The name in full.
    pub open spec fn text(&self) -> Seq<char> {
        if self.namespace@.len() == 0 {
            self.basename@
        } else {
            self.namespace@ + "::"@ + self.basename@
        }
    }

    /// The name in full.
    pub fn describe(&self) -> (r: String)
        ensures
            r@ == self.text(),
    {
        if self.namespace.as_str().unicode_len() == 0 {
            self.basename.clone()
        } else {
            let s = self.namespace.clone().concat("::");
            s.concat(self.basename.as_str())
        }
    }
}

/// An entity of type `ty` with id `eid`, as it is written.
pub open spec fn entity_text(ty: Seq<char>, eid: Seq<char>) -> Seq<char> {
    ty + "::\""@ + crate::text::escaped(eid) + "\""@
}

/// An entity of type `ty` with id `eid`, as it is written.
pub(crate) fn describe_entity(ty: &String, eid: &String) -> (r: String)
    ensures
        r@ == entity_text(ty@, eid@),
{
    let s = ty.clone().concat("::\"");
    let e = escape(eid);
    let s = s.concat(e.as_str());
    s.concat("\"")
}

impl EntityUid {
    /// The entity, as it is written: `Type::"id"`.
    pub fn describe(&self) -> (r: String)
        ensures
            r@ == entity_text(self.ty@, self.eid@),
    {
        describe_entity(&self.ty, &self.eid)
    }
}

/// The first value for `key`.
pub open spec fn lookup<V>(pairs: Seq<(String, V)>, key: Seq<char>) -> Option<V>
    decreases pairs.len(),
{
    if pairs.len() == 0 {
        None
    } else if pairs[0].0@ == key {
        Some(pairs[0].1)
    } else {
        lookup(pairs.drop_first(), key)
    }
}

fn find<'a, V>(pairs: &'a Vec<(String, V)>, key: &str) -> (r: Option<&'a V>)
    ensures
        match r {
            Some(v) => lookup(pairs@, key@) == Some(*v),
            None => lookup(pairs@, key@) is None,
        },
{
    let k = key.to_owned();
    let mut i: usize = 0;
    assert(pairs@.skip(0) =~= pairs@);
    while i < pairs.len()
        invariant
            i <= pairs@.len(),
            k@ == key@,
            lookup(pairs@, key@) == lookup(pairs@.skip(i as int), key@),
        decreases pairs@.len() - i,
    {
        assert(pairs@.skip(i as int)[0] == pairs@[i as int]);
        assert(pairs@.skip(i as int).drop_first() =~= pairs@.skip(i + 1));
        if pairs[i].0 == k {
            return Some(&pairs[i].1);
        }
        i += 1;
    }
    None
}

/// The name is `ns` (empty for no name).
pub open spec fn is_named(name: Option<String>, ns: Seq<char>) -> bool {
    match name {
        Some(n) => ns.len() > 0 && n@ == ns,
        None => ns.len() == 0,
    }
}

/// The namespace of the fragment that is named `ns`: the first one.
pub open spec fn namespace_in(
    fragment: Seq<NamespaceDeclaration>,
    ns: Seq<char>,
) -> Option<NamespaceDeclaration>
    decreases fragment.len(),
{
    if fragment.len() == 0 {
        None
    } else if is_named(fragment[0].name, ns) {
        Some(fragment[0])
    } else {
        namespace_in(fragment.drop_first(), ns)
    }
}

fn find_namespace<'a>(fragment: &'a Vec<NamespaceDeclaration>, ns: &String) -> (r: Option<
    &'a NamespaceDeclaration,
>)
    ensures
        match r {
            Some(d) => namespace_in(fragment@, ns@) == Some(*d),
            None => namespace_in(fragment@, ns@) is None,
        },
{
    let empty = ns.as_str().unicode_len() == 0;
    let mut i: usize = 0;
    assert(fragment@.skip(0) =~= fragment@);
    while i < fragment.len()
        invariant
            i <= fragment@.len(),
            empty == (ns@.len() == 0),
            namespace_in(fragment@, ns@) == namespace_in(fragment@.skip(i as int), ns@),
        decreases fragment@.len() - i,
    {
        assert(fragment@.skip(i as int)[0] == fragment@[i as int]);
        assert(fragment@.skip(i as int).drop_first() =~= fragment@.skip(i + 1));
        let here = match &fragment[i].name {
            Some(n) => !empty && *n == *ns,
            None => empty,
        };
        if here {
            return Some(&fragment[i]);
        }
        i += 1;
    }
    None
}

/// A place where an annotation can stand.
#[verifier::ext_equal]
pub struct Site {
    /// The declaration.
    pub origin: Seq<char>,
    /// The namespace it is looked up in (empty for none).
    pub namespace: Seq<char>,
    /// The annotation's value there, if there is one.
    pub value: Option<Seq<char>>,
}

/// What is annotated there.
pub open spec fn annotation(annotations: Option<Annotations>) -> Option<Seq<char>> {
    match annotations {
        Some(a) => match lookup(a@, SEMANTICS_ANNOTATION@) {
            Some(v) => Some(v@),
            None => None,
        },
        None => None,
    }
}

/// The place of a named namespace; its own name is not checked again.
pub open spec fn namespace_site(fragment: Seq<NamespaceDeclaration>, name: Seq<char>) -> Site {
    Site {
        origin: "namespace "@ + name,
        namespace: seq![],
        value: match namespace_in(fragment, name) {
            Some(d) => annotation(Some(d.annotations)),
            None => None,
        },
    }
}

/// The place of an entity type.
pub open spec fn type_site(fragment: Seq<NamespaceDeclaration>, ty: TypeName) -> Site {
    Site {
        origin: "entity type "@ + ty.text(),
        namespace: ty.namespace@,
        value: match namespace_in(fragment, ty.namespace@) {
            Some(d) => annotation(lookup(d.entity_types@, ty.basename@)),
            None => None,
        },
    }
}

/// The place of an action.
pub open spec fn action_site(fragment: Seq<NamespaceDeclaration>, action: ActionName) -> Site {
    Site {
        origin: "action "@ + entity_text(action.ty.text(), action.id@),
        namespace: action.ty.namespace@,
        value: match namespace_in(fragment, action.ty.namespace@) {
            Some(d) => annotation(lookup(d.actions@, action.id@)),
            None => None,
        },
    }
}

/// The places of the first `n` namespaces that have a name.
pub open spec fn namespace_sites(fragment: Seq<NamespaceDeclaration>, n: nat) -> Seq<Site>
    decreases n,
{
    if n == 0 {
        seq![]
    } else {
        let front = namespace_sites(fragment, (n - 1) as nat);
        match fragment[n - 1].name {
            Some(name) => front.push(namespace_site(fragment, name@)),
            None => front,
        }
    }
}

/// Every place, in order: the namespaces, the entity types, the actions.
pub open spec fn sites(
    fragment: Seq<NamespaceDeclaration>,
    types: Seq<TypeName>,
    actions: Seq<ActionName>,
) -> Seq<Site> {
    namespace_sites(fragment, fragment.len()) + types.map_values(
        |t: TypeName| type_site(fragment, t),
    ) + actions.map_values(|a: ActionName| action_site(fragment, a))
}

/// What an outside parser computes: the expression a text is, or its message.
pub open spec fn parses<F: Fn(&String) -> Result<Expr<()>, String>>(
    parse: &F,
    p: spec_fn(Seq<char>) -> Result<Expr<()>, String>,
) -> bool {
    forall|v: String, r: Result<Expr<()>, String>| #[trigger]
        call_ensures(parse, (&v,), r) ==> r == p(v@)
}

/// What an outside check of namespaces computes.
pub open spec fn accepts<G: Fn(&String) -> bool>(
    valid: &G,
    q: spec_fn(Seq<char>) -> bool,
) -> bool {
    forall|v: String, r: bool| #[trigger] call_ensures(valid, (&v,), r) ==> r == q(v@)
}

/// Why collecting stops.
pub enum Fault {
    Parse { origin: Seq<char>, message: String },
    Namespace(Seq<char>),
}

/// The assumptions at the places `all`, in order: origin, expression and
/// source; or the first fault.
pub open spec fn collected(
    all: Seq<Site>,
    p: spec_fn(Seq<char>) -> Result<Expr<()>, String>,
    q: spec_fn(Seq<char>) -> bool,
) -> Result<Seq<(Seq<char>, Expr<()>, Seq<char>)>, Fault>
    decreases all.len(),
{
    if all.len() == 0 {
        Ok(seq![])
    } else {
        let site = all.last();
        match collected(all.drop_last(), p, q) {
            Err(e) => Err(e),
            Ok(front) => if site.namespace.len() > 0 && !q(site.namespace) {
                Err(Fault::Namespace(site.origin))
            } else {
                match site.value {
                    None => Ok(front),
                    Some(v) => match p(v) {
                        Ok(e) => Ok(front.push((site.origin, e, v))),
                        Err(message) => Err(Fault::Parse { origin: site.origin, message }),
                    },
                }
            },
        }
    }
}

/// The assumptions are those of the model.
pub open spec fn are_assumptions(
    found: Seq<Assumption>,
    model: Seq<(Seq<char>, Expr<()>, Seq<char>)>,
) -> bool {
    &&& found.len() == model.len()
    &&& forall|i: int|
        0 <= i < found.len() ==> (#[trigger] found[i]).origin@ == model[i].0 && found[i].expression
            == model[i].1 && found[i].source@ == model[i].2
}

/// The error is the fault.
pub open spec fn is_fault(e: SemanticsError, f: Fault) -> bool {
    match f {
        Fault::Parse { origin, message } => e matches SemanticsError::Parse {
            origin: o,
            message: m,
        } && o@ == origin && m == message,
        Fault::Namespace(origin) => e matches SemanticsError::Namespace(o) && o@ == origin,
    }
}

/// Collecting at `all` came to `found`, for what the parser and the check of
/// namespaces compute.
pub open spec fn collects<
    F: Fn(&String) -> Result<Expr<()>, String>,
    G: Fn(&String) -> bool,
>(all: Seq<Site>, found: Seq<Assumption>, parse: &F, valid: &G) -> bool {
    forall|p: spec_fn(Seq<char>) -> Result<Expr<()>, String>, q: spec_fn(Seq<char>) -> bool|
        #[trigger] parses(parse, p) && #[trigger] accepts(valid, q) ==> (collected(
            all,
            p,
            q,
        ) matches Ok(model) && are_assumptions(found, model))
}

/// Collecting at `all` fails with `e`.
pub open spec fn fails<F: Fn(&String) -> Result<Expr<()>, String>, G: Fn(&String) -> bool>(
    all: Seq<Site>,
    e: SemanticsError,
    parse: &F,
    valid: &G,
) -> bool {
    forall|p: spec_fn(Seq<char>) -> Result<Expr<()>, String>, q: spec_fn(Seq<char>) -> bool|
        #[trigger] parses(parse, p) && #[trigger] accepts(valid, q) ==> (collected(
            all,
            p,
            q,
        ) matches Err(f) && is_fault(e, f))
}

/// A fault at the first places is the fault of all.
proof fn lemma_fault_stays(
    all: Seq<Site>,
    n: int,
    p: spec_fn(Seq<char>) -> Result<Expr<()>, String>,
    q: spec_fn(Seq<char>) -> bool,
)
    requires
        0 <= n <= all.len(),
        collected(all.take(n), p, q) is Err,
    ensures
        collected(all, p, q) == collected(all.take(n), p, q),
    decreases all.len() - n,
{
    if n == all.len() {
        assert(all.take(n) =~= all);
    } else {
        assert(all.take(n + 1).drop_last() =~= all.take(n));
        lemma_fault_stays(all, n + 1, p, q);
    }
}

proof fn lemma_failed<F: Fn(&String) -> Result<Expr<()>, String>, G: Fn(&String) -> bool>(
    all: Seq<Site>,
    n: int,
    e: SemanticsError,
    parse: &F,
    valid: &G,
)
    requires
        0 <= n <= all.len(),
        fails(all.take(n), e, parse, valid),
    ensures
        fails(all, e, parse, valid),
{
    assert forall|
        p: spec_fn(Seq<char>) -> Result<Expr<()>, String>,
        q: spec_fn(Seq<char>) -> bool,
    | #[trigger] parses(parse, p) && #[trigger] accepts(valid, q) implies (collected(
        all,
        p,
        q,
    ) matches Err(f) && is_fault(e, f)) by {
        lemma_fault_stays(all, n, p, q);
    }
}

/// Adds what is assumed at one more place, the last of `all`.
fn add_site<F: Fn(&String) -> Result<Expr<()>, String>, G: Fn(&String) -> bool>(
    Ghost(all): Ghost<Seq<Site>>,
    out: &mut Vec<Assumption>,
    origin: String,
    namespace: &String,
    value: Option<&String>,
    parse: &F,
    valid: &G,
) -> (r: Result<(), SemanticsError>)
    requires
        all.len() > 0,
        collects(all.drop_last(), old(out)@, parse, valid),
        origin@ == all.last().origin,
        namespace@ == all.last().namespace,
        match value {
            Some(v) => all.last().value == Some(v@),
            None => all.last().value is None,
        },
        forall|v: String| call_requires(parse, (&v,)),
        forall|v: String| call_requires(valid, (&v,)),
    ensures
        match r {
            Ok(_) => collects(all, final(out)@, parse, valid),
            Err(e) => fails(all, e, parse, valid),
        },
{
    if namespace.as_str().unicode_len() > 0 && !valid(namespace) {
        return Err(SemanticsError::Namespace(origin));
    }
    if let Some(v) = value {
        match parse(v) {
            Ok(expression) => {
                let ghost was = out@;
                out.push(Assumption { origin, expression, source: v.clone() });
                assert(out@.drop_last() =~= was);
            },
            Err(message) => return Err(SemanticsError::Parse { origin, message }),
        }
    }
    Ok(())
}

fn value_in(annotations: Option<&Annotations>) -> (r: Option<&String>)
    ensures
        match annotations {
            Some(a) => match r {
                Some(v) => annotation(Some(*a)) == Some(v@),
                None => annotation(Some(*a)) is None,
            },
            None => r is None,
        },
{
    match annotations {
        Some(a) => find(a, SEMANTICS_ANNOTATION),
        None => None,
    }
}

/// Collects the `@semantics` assumptions of a schema: those of the namespaces
/// of its fragment, of its entity types and of its actions, in this order.
/// `fragment` is what the schema text parses to as a fragment, `parse` parses
/// an expression, and `valid` says whether a text parses as a namespace.
pub fn collect_semantics<F: Fn(&String) -> Result<Expr<()>, String>, G: Fn(&String) -> bool>(
    fragment: Result<Vec<NamespaceDeclaration>, String>,
    types: &Vec<TypeName>,
    actions: &Vec<ActionName>,
    parse: &F,
    valid: &G,
) -> (r: Result<Vec<Assumption>, SemanticsError>)
    requires
        forall|v: String| call_requires(parse, (&v,)),
        forall|v: String| call_requires(valid, (&v,)),
    ensures
        match fragment {
            Err(m) => r == Err::<Vec<Assumption>, SemanticsError>(SemanticsError::Fragment(m)),
            Ok(f) => match r {
                Ok(found) => collects(sites(f@, types@, actions@), found@, parse, valid),
                Err(e) => fails(sites(f@, types@, actions@), e, parse, valid),
            },
        },
{
    match fragment {
        Ok(f) => collect_declared(&f, types, actions, parse, valid),
        Err(m) => Err(SemanticsError::Fragment(m)),
    }
}

fn collect_declared<F: Fn(&String) -> Result<Expr<()>, String>, G: Fn(&String) -> bool>(
    fragment: &Vec<NamespaceDeclaration>,
    types: &Vec<TypeName>,
    actions: &Vec<ActionName>,
    parse: &F,
    valid: &G,
) -> (r: Result<Vec<Assumption>, SemanticsError>)
    requires
        forall|v: String| call_requires(parse, (&v,)),
        forall|v: String| call_requires(valid, (&v,)),
    ensures
        match r {
            Ok(found) => collects(sites(fragment@, types@, actions@), found@, parse, valid),
            Err(e) => fails(sites(fragment@, types@, actions@), e, parse, valid),
        },
{
    let ghost f = fragment@;
    let ghost n = namespace_sites(f, f.len());
    let ghost t = types@.map_values(|t: TypeName| type_site(f, t));
    let ghost a = actions@.map_values(|a: ActionName| action_site(f, a));
    let ghost all = sites(f, types@, actions@);
    let mut out: Vec<Assumption> = Vec::new();
    let none = "".to_owned();
    let mut i: usize = 0;
    proof {
        reveal_strlit("");
        assert(none@ =~= seq![]);
    }
    while i < fragment.len()
        invariant
            i <= fragment@.len(),
            f == fragment@,
            none@ == Seq::<char>::empty(),
            n == namespace_sites(f, f.len()),
            n + t + a == all,
            all == sites(fragment@, types@, actions@),
            forall|v: String| call_requires(parse, (&v,)),
            forall|v: String| call_requires(valid, (&v,)),
            collects(namespace_sites(f, i as nat), out@, parse, valid),
        decreases fragment@.len() - i,
    {
        if let Some(name) = &fragment[i].name {
            let origin = "namespace ".to_owned().concat(name.as_str());
            let value = match find_namespace(fragment, name) {
                Some(d) => value_in(Some(&d.annotations)),
                None => None,
            };
            let ghost here = namespace_sites(f, (i + 1) as nat);
            assert(here.drop_last() =~= namespace_sites(f, i as nat));
            match add_site(Ghost(here), &mut out, origin, &none, value, parse, valid) {
                Ok(_) => {},
                Err(e) => {
                    proof {
                        lemma_sites_prefix(f, (i + 1) as nat, f.len());
                        assert(all.take(here.len() as int) =~= here);
                        lemma_failed(all, here.len() as int, e, parse, valid);
                    }
                    return Err(e);
                },
            }
        }
        i += 1;
    }
    let mut j: usize = 0;
    assert(n + t.take(0) =~= n);
    while j < types.len()
        invariant
            j <= types@.len(),
            f == fragment@,
            t == types@.map_values(|t: TypeName| type_site(f, t)),
            n + t + a == all,
            all == sites(fragment@, types@, actions@),
            forall|v: String| call_requires(parse, (&v,)),
            forall|v: String| call_requires(valid, (&v,)),
            collects(n + t.take(j as int), out@, parse, valid),
        decreases types@.len() - j,
    {
        let ty = &types[j];
        let name = ty.describe();
        let origin = "entity type ".to_owned().concat(name.as_str());
        let value = match find_namespace(fragment, &ty.namespace) {
            Some(d) => value_in(find(&d.entity_types, ty.basename.as_str())),
            None => None,
        };
        let ghost here = n + t.take(j + 1);
        assert(here.drop_last() =~= n + t.take(j as int));
        assert(here.last() == type_site(f, types@[j as int]));
        match add_site(Ghost(here), &mut out, origin, &ty.namespace, value, parse, valid) {
            Ok(_) => {},
            Err(e) => {
                proof {
                    assert(all.take(here.len() as int) =~= here);
                    lemma_failed(all, here.len() as int, e, parse, valid);
                }
                return Err(e);
            },
        }
        j += 1;
    }
    let mut k: usize = 0;
    assert(n + t + a.take(0) =~= n + t.take(j as int));
    while k < actions.len()
        invariant
            k <= actions@.len(),
            f == fragment@,
            a == actions@.map_values(|a: ActionName| action_site(f, a)),
            n + t + a == all,
            all == sites(fragment@, types@, actions@),
            forall|v: String| call_requires(parse, (&v,)),
            forall|v: String| call_requires(valid, (&v,)),
            collects(n + t + a.take(k as int), out@, parse, valid),
        decreases actions@.len() - k,
    {
        let action = &actions[k];
        let ty = action.ty.describe();
        let name = describe_entity(&ty, &action.id);
        let origin = "action ".to_owned().concat(name.as_str());
        let value = match find_namespace(fragment, &action.ty.namespace) {
            Some(d) => value_in(find(&d.actions, action.id.as_str())),
            None => None,
        };
        let ghost here = n + t + a.take(k + 1);
        assert(here.drop_last() =~= n + t + a.take(k as int));
        assert(here.last() == action_site(f, actions@[k as int]));
        match add_site(
            Ghost(here),
            &mut out,
            origin,
            &action.ty.namespace,
            value,
            parse,
            valid,
        ) {
            Ok(_) => {},
            Err(e) => {
                proof {
                    assert(all.take(here.len() as int) =~= here);
                    lemma_failed(all, here.len() as int, e, parse, valid);
                }
                return Err(e);
            },
        }
        k += 1;
    }
    assert(n + t + a.take(k as int) =~= all);
    Ok(out)
}

/// The places of fewer namespaces come first.
proof fn lemma_sites_prefix(fragment: Seq<NamespaceDeclaration>, m: nat, n: nat)
    requires
        m <= n,
    ensures
        namespace_sites(fragment, m).len() <= namespace_sites(fragment, n).len(),
        namespace_sites(fragment, n).take(namespace_sites(fragment, m).len() as int)
            == namespace_sites(fragment, m),
    decreases n,
{
    let few = namespace_sites(fragment, m);
    let many = namespace_sites(fragment, n);
    if m == n {
        assert(many.take(few.len() as int) =~= few);
    } else {
        lemma_sites_prefix(fragment, m, (n - 1) as nat);
        let front = namespace_sites(fragment, (n - 1) as nat);
        assert(many.take(few.len() as int) =~= front.take(few.len() as int));
    }
}

/// Without annotations there are no assumptions.
pub proof fn law_nothing_annotated(
    all: Seq<Site>,
    p: spec_fn(Seq<char>) -> Result<Expr<()>, String>,
    q: spec_fn(Seq<char>) -> bool,
)
    requires
        forall|i: int|
            0 <= i < all.len() ==> (#[trigger] all[i]).value is None && (all[i].namespace.len() == 0
                || q(all[i].namespace)),
    ensures
        collected(all, p, q) == Ok::<Seq<(Seq<char>, Expr<()>, Seq<char>)>, Fault>(seq![]),
    decreases all.len(),
{
    if all.len() > 0 {
        let front = all.drop_last();
        assert forall|i: int| 0 <= i < front.len() implies (#[trigger] front[i]).value is None && (
        front[i].namespace.len() == 0 || q(front[i].namespace)) by {
            assert(all[i] == front[i]);
        }
        law_nothing_annotated(front, p, q);
        assert(all[all.len() - 1].value is None);
    }
}

/// The pair at `i` is the first one with the key.
pub open spec fn first_with<V>(pairs: Seq<(String, V)>, key: Seq<char>, i: int) -> bool {
    &&& 0 <= i < pairs.len()
    &&& pairs[i].0@ == key
    &&& forall|j: int| 0 <= j < i ==> (#[trigger] pairs[j]).0@ != key
}

/// Looking a key up gives the value of the first pair that has it, wherever it
/// stands, and nothing only if no pair has it.
pub proof fn law_lookup_finds_the_first<V>(pairs: Seq<(String, V)>, key: Seq<char>)
    ensures
        forall|i: int| #[trigger]
            first_with(pairs, key, i) ==> lookup(pairs, key) == Some(pairs[i].1),
        lookup(pairs, key) is None <==> forall|i: int|
            0 <= i < pairs.len() ==> (#[trigger] pairs[i]).0@ != key,
        lookup(pairs, key) matches Some(v) ==> exists|i: int| #[trigger]
            first_with(pairs, key, i) && pairs[i].1 == v,
    decreases pairs.len(),
{
    if pairs.len() > 0 {
        let rest = pairs.drop_first();
        law_lookup_finds_the_first(rest, key);
        if pairs[0].0@ == key {
            assert(first_with(pairs, key, 0));
        } else {
            assert forall|i: int| #[trigger] first_with(pairs, key, i) implies lookup(pairs, key)
                == Some(pairs[i].1) by {
                assert(i > 0);
                assert forall|j: int| 0 <= j < i - 1 implies (#[trigger] rest[j]).0@ != key by {
                    assert(rest[j] == pairs[j + 1]);
                }
                assert(first_with(rest, key, i - 1));
            }
            if lookup(pairs, key) is None {
                assert forall|i: int| 0 <= i < pairs.len() implies (
                #[trigger] pairs[i]).0@ != key by {
                    if i > 0 {
                        assert(rest[i - 1] == pairs[i]);
                    }
                }
            } else {
                let i = choose|i: int| #[trigger]
                    first_with(rest, key, i) && rest[i].1 == lookup(pairs, key)->Some_0;
                assert forall|j: int| 0 <= j < i + 1 implies (#[trigger] pairs[j]).0@ != key by {
                    if j > 0 {
                        assert(rest[j - 1] == pairs[j]);
                    }
                }
                assert(first_with(pairs, key, i + 1));
                assert(pairs[i + 1].0@ == key);
            }
        }
    }
}

/// The namespace at `i` is the first of the fragment that is named `ns`, which
/// is empty for the namespace without a name.
pub open spec fn first_namespace(
    fragment: Seq<NamespaceDeclaration>,
    ns: Seq<char>,
    i: int,
) -> bool {
    &&& 0 <= i < fragment.len()
    &&& match fragment[i].name {
        Some(n) => n@ == ns && n@.len() > 0,
        None => ns.len() == 0,
    }
    &&& forall|j: int|
        0 <= j < i ==> match (#[trigger] fragment[j]).name {
            Some(n) => n@ != ns || n@.len() == 0,
            None => ns.len() > 0,
        }
}

/// A namespace is found by its name, wherever it stands in the fragment.
pub proof fn law_namespace_is_found(fragment: Seq<NamespaceDeclaration>, ns: Seq<char>)
    ensures
        forall|i: int| #[trigger]
            first_namespace(fragment, ns, i) ==> namespace_in(fragment, ns) == Some(fragment[i]),
        namespace_in(fragment, ns) matches Some(d) ==> exists|i: int| #[trigger]
            first_namespace(fragment, ns, i) && fragment[i] == d,
    decreases fragment.len(),
{
    if fragment.len() > 0 {
        let rest = fragment.drop_first();
        law_namespace_is_found(rest, ns);
        if is_named(fragment[0].name, ns) {
            assert(first_namespace(fragment, ns, 0));
        } else {
            assert forall|i: int| #[trigger] first_namespace(fragment, ns, i) implies namespace_in(
                fragment,
                ns,
            ) == Some(fragment[i]) by {
                assert(i > 0);
                assert forall|j: int| 0 <= j < i - 1 implies match (#[trigger] rest[j]).name {
                    Some(n) => n@ != ns || n@.len() == 0,
                    None => ns.len() > 0,
                } by {
                    assert(rest[j] == fragment[j + 1]);
                }
                assert(first_namespace(rest, ns, i - 1));
            }
            if namespace_in(fragment, ns) is Some {
                let i = choose|i: int| #[trigger]
                    first_namespace(rest, ns, i) && rest[i] == namespace_in(fragment, ns)->Some_0;
                assert forall|j: int| 0 <= j < i + 1 implies match (#[trigger] fragment[j]).name {
                    Some(n) => n@ != ns || n@.len() == 0,
                    None => ns.len() > 0,
                } by {
                    if j > 0 {
                        assert(rest[j - 1] == fragment[j]);
                    }
                }
                assert(first_namespace(fragment, ns, i + 1));
            }
        }
    }
}

/// A declaration of a schema, by its place among its kind.
pub enum Declared {
    Namespace(int),
    EntityType(int),
    Action(int),
}

/// The declarations of a schema.
pub struct Declarations {
    pub fragment: Seq<NamespaceDeclaration>,
    pub types: Seq<TypeName>,
    pub actions: Seq<ActionName>,
}

/// The annotation `semantics` among `annotations` has the value `v`.
pub open spec fn annotated_with(annotations: Annotations, v: Seq<char>) -> bool {
    exists|a: int| #[trigger]
        first_with(annotations@, "semantics"@, a) && annotations@[a].1@ == v
}

/// One of the declarations of `pairs` named `name`, the first one, is annotated
/// with `v`.
pub open spec fn entry_annotated_with(
    pairs: Seq<(String, Annotations)>,
    name: Seq<char>,
    v: Seq<char>,
) -> bool {
    exists|e: int| #[trigger]
        first_with(pairs, name, e) && annotated_with(pairs[e].1, v)
}

impl Declarations {
    /// The declaration is one of the schema's; a namespace without a name is
    /// none.
    pub open spec fn has(self, d: Declared) -> bool {
        match d {
            Declared::Namespace(k) => 0 <= k < self.fragment.len() && self.fragment[k].name is Some,
            Declared::EntityType(k) => 0 <= k < self.types.len(),
            Declared::Action(k) => 0 <= k < self.actions.len(),
        }
    }

    /// The place of the declaration among all: namespaces, then entity types,
    /// then actions.
    pub open spec fn rank(self, d: Declared) -> int {
        match d {
            Declared::Namespace(k) => k,
            Declared::EntityType(k) => self.fragment.len() + k,
            Declared::Action(k) => self.fragment.len() + self.types.len() + k,
        }
    }

    /// How the declaration is called in messages.
    pub open spec fn origin(self, d: Declared) -> Seq<char> {
        match d {
            Declared::Namespace(k) => "namespace "@ + self.fragment[k].name->Some_0@,
            Declared::EntityType(k) => {
                let t = self.types[k];
                "entity type "@ + if t.namespace@.len() == 0 {
                    t.basename@
                } else {
                    t.namespace@ + "::"@ + t.basename@
                }
            },
            Declared::Action(k) => {
                let t = self.actions[k].ty;
                let ty = if t.namespace@.len() == 0 {
                    t.basename@
                } else {
                    t.namespace@ + "::"@ + t.basename@
                };
                "action "@ + (ty + "::\""@ + crate::text::escaped(self.actions[k].id@) + "\""@)
            },
        }
    }

    /// The namespace that the declaration stands in, if it is to be checked.
    pub open spec fn namespace(self, d: Declared) -> Seq<char> {
        match d {
            Declared::Namespace(_) => seq![],
            Declared::EntityType(k) => self.types[k].namespace@,
            Declared::Action(k) => self.actions[k].ty.namespace@,
        }
    }

    /// The declaration carries the annotation `@semantics("v")`.
    pub open spec fn carries(self, d: Declared, v: Seq<char>) -> bool {
        self.has(d) && match d {
            Declared::Namespace(k) => exists|i: int| #[trigger]
                first_namespace(self.fragment, self.fragment[k].name->Some_0@, i)
                    && annotated_with(self.fragment[i].annotations, v),
            Declared::EntityType(k) => exists|i: int| #[trigger]
                first_namespace(self.fragment, self.types[k].namespace@, i)
                    && entry_annotated_with(
                    self.fragment[i].entity_types@,
                    self.types[k].basename@,
                    v,
                ),
            Declared::Action(k) => exists|i: int| #[trigger]
                first_namespace(self.fragment, self.actions[k].ty.namespace@, i)
                    && entry_annotated_with(
                    self.fragment[i].actions@,
                    self.actions[k].id@,
                    v,
                ),
        }
    }

    /// Nothing is wrong at the declaration: its namespace is one, and its
    /// annotation, if it has one, parses.
    pub open spec fn sound(
        self,
        d: Declared,
        p: spec_fn(Seq<char>) -> Result<Expr<()>, String>,
        q: spec_fn(Seq<char>) -> bool,
    ) -> bool {
        &&& self.namespace(d).len() == 0 || q(self.namespace(d))
        &&& forall|v: Seq<char>| #[trigger] self.carries(d, v) ==> p(v) is Ok
    }

    /// `f` is what is wrong at the declaration.
    pub open spec fn wrong(
        self,
        d: Declared,
        p: spec_fn(Seq<char>) -> Result<Expr<()>, String>,
        q: spec_fn(Seq<char>) -> bool,
        f: Fault,
    ) -> bool {
        if self.namespace(d).len() > 0 && !q(self.namespace(d)) {
            f == Fault::Namespace(self.origin(d))
        } else {
            exists|v: Seq<char>| #[trigger]
                self.carries(d, v) && p(v) is Err && f == (Fault::Parse {
                    origin: self.origin(d),
                    message: p(v)->Err_0,
                })
        }
    }

    /// The site is that of the declaration.
    spec fn sited(self, d: Declared, site: Site) -> bool {
        &&& self.has(d)
        &&& site.origin == self.origin(d)
        &&& site.namespace == self.namespace(d)
        &&& forall|v: Seq<char>| #[trigger] self.carries(d, v) <==> site.value == Some(v)
    }

    /// What is annotated is what the annotation is.
    proof fn lemma_annotated(a: Annotations)
        ensures
            forall|v: Seq<char>| #[trigger]
                annotated_with(a, v) <==> annotation(Some(a)) == Some(v),
    {
        law_lookup_finds_the_first(a@, "semantics"@);
    }

    /// The same of an entry.
    proof fn lemma_entry(pairs: Seq<(String, Annotations)>, name: Seq<char>)
        ensures
            forall|v: Seq<char>| #[trigger]
                entry_annotated_with(pairs, name, v) <==> annotation(lookup(pairs, name)) == Some(
                    v,
                ),
    {
        law_lookup_finds_the_first(pairs, name);
        if lookup(pairs, name) is Some {
            Self::lemma_annotated(lookup(pairs, name)->Some_0);
        }
        assert forall|v: Seq<char>| #[trigger] entry_annotated_with(pairs, name, v)
            <==> annotation(lookup(pairs, name)) == Some(v) by {
            if entry_annotated_with(pairs, name, v) {
                let e = choose|e: int| #[trigger]
                    first_with(pairs, name, e) && annotated_with(pairs[e].1, v);
                assert(lookup(pairs, name) == Some(pairs[e].1));
            }
        }
    }

    /// A namespace's site.
    proof fn lemma_namespace_site(self, k: int)
        requires
            self.has(Declared::Namespace(k)),
        ensures
            self.sited(
                Declared::Namespace(k),
                namespace_site(self.fragment, self.fragment[k].name->Some_0@),
            ),
    {
        let d = Declared::Namespace(k);
        let name = self.fragment[k].name->Some_0@;
        let site = namespace_site(self.fragment, name);
        law_namespace_is_found(self.fragment, name);
        if namespace_in(self.fragment, name) is Some {
            Self::lemma_annotated(namespace_in(self.fragment, name)->Some_0.annotations);
        }
        assert forall|v: Seq<char>| #[trigger] self.carries(d, v) <==> site.value == Some(v) by {
            if self.carries(d, v) {
                let i = choose|i: int| #[trigger]
                    first_namespace(self.fragment, name, i) && annotated_with(
                        self.fragment[i].annotations,
                        v,
                    );
                assert(namespace_in(self.fragment, name) == Some(self.fragment[i]));
            }
        }
    }

    /// An entity type's site.
    proof fn lemma_type_site(self, k: int)
        requires
            self.has(Declared::EntityType(k)),
        ensures
            self.sited(Declared::EntityType(k), type_site(self.fragment, self.types[k])),
    {
        let d = Declared::EntityType(k);
        let ns = self.types[k].namespace@;
        let name = self.types[k].basename@;
        let site = type_site(self.fragment, self.types[k]);
        law_namespace_is_found(self.fragment, ns);
        if namespace_in(self.fragment, ns) is Some {
            Self::lemma_entry(namespace_in(self.fragment, ns)->Some_0.entity_types@, name);
        }
        assert forall|v: Seq<char>| #[trigger] self.carries(d, v) <==> site.value == Some(v) by {
            if self.carries(d, v) {
                let i = choose|i: int| #[trigger]
                    first_namespace(self.fragment, ns, i) && entry_annotated_with(
                        self.fragment[i].entity_types@,
                        name,
                        v,
                    );
                assert(namespace_in(self.fragment, ns) == Some(self.fragment[i]));
            }
        }
    }

    /// An action's site.
    proof fn lemma_action_site(self, k: int)
        requires
            self.has(Declared::Action(k)),
        ensures
            self.sited(Declared::Action(k), action_site(self.fragment, self.actions[k])),
    {
        let d = Declared::Action(k);
        let ns = self.actions[k].ty.namespace@;
        let name = self.actions[k].id@;
        let site = action_site(self.fragment, self.actions[k]);
        law_namespace_is_found(self.fragment, ns);
        if namespace_in(self.fragment, ns) is Some {
            Self::lemma_entry(namespace_in(self.fragment, ns)->Some_0.actions@, name);
        }
        assert forall|v: Seq<char>| #[trigger] self.carries(d, v) <==> site.value == Some(v) by {
            if self.carries(d, v) {
                let i = choose|i: int| #[trigger]
                    first_namespace(self.fragment, ns, i) && entry_annotated_with(
                        self.fragment[i].actions@,
                        name,
                        v,
                    );
                assert(namespace_in(self.fragment, ns) == Some(self.fragment[i]));
            }
        }
    }

    /// The declarations whose sites `all` are, in order.
    spec fn lists(self, ds: Seq<Declared>, all: Seq<Site>) -> bool {
        &&& ds.len() == all.len()
        &&& forall|i: int| 0 <= i < ds.len() ==> self.sited(#[trigger] ds[i], all[i])
        &&& forall|i: int, j: int|
            0 <= i < j < ds.len() ==> self.rank(#[trigger] ds[i]) < self.rank(#[trigger] ds[j])
    }

    proof fn lemma_namespace_sites(self, n: nat) -> (ds: Seq<Declared>)
        requires
            n <= self.fragment.len(),
        ensures
            self.lists(ds, namespace_sites(self.fragment, n)),
            forall|i: int| 0 <= i < ds.len() ==> self.rank(#[trigger] ds[i]) < n,
            forall|k: int|
                0 <= k < n && self.has(Declared::Namespace(k)) ==> #[trigger] ds.contains(
                    Declared::Namespace(k),
                ),
        decreases n,
    {
        if n == 0 {
            seq![]
        } else {
            let front = self.lemma_namespace_sites((n - 1) as nat);
            if self.fragment[n - 1].name is Some {
                self.lemma_namespace_site(n - 1);
                let ds = front.push(Declared::Namespace(n - 1));
                assert forall|k: int|
                    0 <= k < n && self.has(Declared::Namespace(k)) implies #[trigger] ds.contains(
                    Declared::Namespace(k),
                ) by {
                    if k < n - 1 {
                        let i = front.index_of(Declared::Namespace(k));
                        assert(front.contains(Declared::Namespace(k)));
                        assert(ds[i] == front[i]);
                    } else {
                        assert(ds[front.len() as int] == Declared::Namespace(k));
                    }
                }
                ds
            } else {
                front
            }
        }
    }

    /// Every declaration has a site, in the order of the declarations.
    proof fn lemma_sites(self) -> (ds: Seq<Declared>)
        ensures
            self.lists(ds, sites(self.fragment, self.types, self.actions)),
            forall|d: Declared| #[trigger] self.has(d) <==> ds.contains(d),
    {
        let f = self.fragment;
        let ns = self.lemma_namespace_sites(f.len());
        let ts = Seq::new(self.types.len(), |k: int| Declared::EntityType(k));
        let acts = Seq::new(self.actions.len(), |k: int| Declared::Action(k));
        let ds = ns + ts + acts;
        let all = sites(f, self.types, self.actions);
        assert forall|i: int| 0 <= i < ds.len() implies self.sited(#[trigger] ds[i], all[i]) by {
            if i < ns.len() {
                assert(ds[i] == ns[i]);
                assert(all[i] == namespace_sites(f, f.len())[i]);
            } else if i < ns.len() + ts.len() {
                self.lemma_type_site(i - ns.len());
            } else {
                self.lemma_action_site(i - ns.len() - ts.len());
            }
        }
        assert forall|i: int, j: int| 0 <= i < j < ds.len() implies self.rank(#[trigger] ds[i])
            < self.rank(#[trigger] ds[j]) by {
            if i < ns.len() {
                assert(ds[i] == ns[i]);
            }
            if j < ns.len() {
                assert(ds[j] == ns[j]);
            }
        }
        assert forall|d: Declared| #[trigger] self.has(d) <==> ds.contains(d) by {
            if self.has(d) {
                match d {
                    Declared::Namespace(k) => {
                        assert(ns.contains(Declared::Namespace(k)));
                        let i = ns.index_of(d);
                        assert(ds[i] == d);
                    },
                    Declared::EntityType(k) => {
                        assert(ds[ns.len() + k] == d);
                    },
                    Declared::Action(k) => {
                        assert(ds[ns.len() + ts.len() + k] == d);
                    },
                }
            }
            if ds.contains(d) {
                let i = ds.index_of(d);
                assert(self.sited(ds[i], all[i]));
            }
        }
        ds
    }

    /// What is collected of the listed declarations.
    proof fn lemma_collected(
        self,
        ds: Seq<Declared>,
        all: Seq<Site>,
        p: spec_fn(Seq<char>) -> Result<Expr<()>, String>,
        q: spec_fn(Seq<char>) -> bool,
    ) -> (at: Seq<Declared>)
        requires
            self.lists(ds, all),
        ensures
            match collected(all, p, q) {
                Ok(model) => {
                    &&& self.accounts(at, model, p)
                    &&& forall|i: int| 0 <= i < at.len() ==> ds.contains(#[trigger] at[i])
                    &&& forall|i: int| 0 <= i < ds.len() ==> self.sound(#[trigger] ds[i], p, q)
                    &&& forall|i: int, v: Seq<char>|
                        0 <= i < ds.len() && #[trigger] self.carries(ds[i], v) ==> at.contains(ds[i])
                },
                Err(f) => exists|i: int|
                    0 <= i < ds.len() && self.wrong(#[trigger] ds[i], p, q, f) && !self.sound(
                        ds[i],
                        p,
                        q,
                    ) && forall|j: int| 0 <= j < i ==> self.sound(#[trigger] ds[j], p, q),
            },
        decreases all.len(),
    {
        if all.len() == 0 {
            seq![]
        } else {
            let front = ds.drop_last();
            let d = ds.last();
            let n = front.len() as int;
            assert(ds[n] == d && all[n] == all.last());
            assert(self.sited(ds[n], all[n]));
            assert forall|i: int| 0 <= i < front.len() implies self.sited(
                #[trigger] front[i],
                all.drop_last()[i],
            ) by {
                assert(self.sited(ds[i], all[i]));
            }
            assert forall|i: int, j: int| 0 <= i < j < front.len() implies self.rank(
                #[trigger] front[i],
            ) < self.rank(#[trigger] front[j]) by {
                assert(self.rank(ds[i]) < self.rank(ds[j]));
            }
            let at = self.lemma_collected(front, all.drop_last(), p, q);
            let site = all.last();
            match collected(all.drop_last(), p, q) {
                Err(f) => {
                    let i = choose|i: int|
                        0 <= i < front.len() && self.wrong(#[trigger] front[i], p, q, f)
                            && !self.sound(front[i], p, q) && forall|j: int|
                            0 <= j < i ==> self.sound(#[trigger] front[j], p, q);
                    assert(ds[i] == front[i]);
                    assert forall|j: int| 0 <= j < i implies self.sound(
                        #[trigger] ds[j],
                        p,
                        q,
                    ) by {
                        assert(front[j] == ds[j]);
                    }
                    at
                },
                Ok(model) => {
                    assert forall|j: int| 0 <= j < n implies self.sound(#[trigger] ds[j], p, q) by {
                        assert(front[j] == ds[j]);
                    }
                    if collected(all, p, q) is Err {
                        assert(self.wrong(ds[n], p, q, collected(all, p, q)->Err_0)) by {
                            if site.value is Some {
                                assert(self.carries(d, site.value->Some_0));
                            }
                        }
                        assert(!self.sound(ds[n], p, q)) by {
                            if site.value is Some {
                                assert(self.carries(d, site.value->Some_0));
                            }
                        }
                        at
                    } else if site.value is None {
                        assert forall|i: int, v: Seq<char>|
                            0 <= i < ds.len() && #[trigger] self.carries(
                                ds[i],
                                v,
                            ) implies at.contains(ds[i]) by {
                            assert(i < n);
                            assert(self.carries(front[i], v));
                        }
                        assert forall|i: int| 0 <= i < at.len() implies ds.contains(
                            #[trigger] at[i],
                        ) by {
                            assert(front.contains(at[i]));
                            let k = front.index_of(at[i]);
                            assert(ds[k] == at[i]);
                        }
                        at
                    } else {
                        let v = site.value->Some_0;
                        assert(self.carries(d, v));
                        let more = at.push(d);
                        let now = collected(all, p, q)->Ok_0;
                        assert forall|i: int, j: int| 0 <= i < j < more.len() implies self.rank(
                            #[trigger] more[i],
                        ) < self.rank(#[trigger] more[j]) by {
                            assert(more[i] == at[i]);
                            if j == at.len() {
                                assert(front.contains(at[i]));
                                let k = front.index_of(at[i]);
                                assert(self.rank(ds[k]) < self.rank(ds[n]));
                            } else {
                                assert(more[j] == at[j]);
                            }
                        }
                        assert forall|i: int| 0 <= i < more.len() implies self.accounts_for(
                            #[trigger] more[i],
                            now[i],
                            p,
                        ) by {
                            if i < at.len() {
                                assert(more[i] == at[i] && now[i] == model[i]);
                                assert(self.accounts_for(at[i], model[i], p));
                            } else {
                                assert(now[i] == (site.origin, p(v)->Ok_0, v));
                            }
                        }
                        assert forall|i: int| 0 <= i < more.len() implies ds.contains(
                            #[trigger] more[i],
                        ) by {
                            if i < at.len() {
                                assert(more[i] == at[i]);
                                assert(front.contains(at[i]));
                                let k = front.index_of(at[i]);
                                assert(ds[k] == at[i]);
                            } else {
                                assert(ds[n] == more[i]);
                            }
                        }
                        assert forall|i: int, u: Seq<char>|
                            0 <= i < ds.len() && #[trigger] self.carries(
                                ds[i],
                                u,
                            ) implies more.contains(ds[i]) by {
                            if i < n {
                                assert(self.carries(front[i], u));
                                assert(at.contains(front[i]));
                                let k = at.index_of(front[i]);
                                assert(more[k] == ds[i]);
                            } else {
                                assert(more[at.len() as int] == ds[i]);
                            }
                        }
                        more
                    }
                },
            }
        }
    }

    /// The assumption is that of the declaration: its origin, the value that it
    /// carries, and what the value parses to.
    pub open spec fn accounts_for(
        self,
        d: Declared,
        found: (Seq<char>, Expr<()>, Seq<char>),
        p: spec_fn(Seq<char>) -> Result<Expr<()>, String>,
    ) -> bool {
        &&& self.carries(d, found.2)
        &&& found.0 == self.origin(d)
        &&& p(found.2) == Ok::<Expr<()>, String>(found.1)
    }

    /// The assumptions are those of the declarations `at`, one of each, in the
    /// order of the declarations.
    pub open spec fn accounts(
        self,
        at: Seq<Declared>,
        model: Seq<(Seq<char>, Expr<()>, Seq<char>)>,
        p: spec_fn(Seq<char>) -> Result<Expr<()>, String>,
    ) -> bool {
        &&& at.len() == model.len()
        &&& forall|i: int| 0 <= i < at.len() ==> self.accounts_for(#[trigger] at[i], model[i], p)
        &&& forall|i: int, j: int|
            0 <= i < j < at.len() ==> self.rank(#[trigger] at[i]) < self.rank(#[trigger] at[j])
    }

    /// Each declaration that carries a `@semantics` annotation, wherever it and
    /// its annotation stand, contributes exactly one assumption: the value that
    /// it carries, with what this parses to, in the order of the declarations;
    /// and nothing else is assumed. Collecting fails exactly if something is
    /// wrong at a declaration, with what is wrong at the first such one.
    pub proof fn law_each_annotation_is_collected(
        self,
        p: spec_fn(Seq<char>) -> Result<Expr<()>, String>,
        q: spec_fn(Seq<char>) -> bool,
    )
        ensures
            match collected(sites(self.fragment, self.types, self.actions), p, q) {
                Ok(model) => {
                    &&& exists|at: Seq<Declared>| #[trigger]
                        self.accounts(at, model, p) && forall|d: Declared, v: Seq<char>| #[trigger]
                            self.carries(d, v) ==> at.contains(d)
                    &&& forall|d: Declared| #[trigger] self.has(d) ==> self.sound(d, p, q)
                },
                Err(f) => exists|d: Declared| #[trigger]
                    self.has(d) && !self.sound(d, p, q) && self.wrong(d, p, q, f) && forall|
                        e: Declared,
                    | #[trigger] self.has(e) && self.rank(e) < self.rank(d) ==> self.sound(e, p, q),
            },
    {
        let ds = self.lemma_sites();
        let all = sites(self.fragment, self.types, self.actions);
        let at = self.lemma_collected(ds, all, p, q);
        match collected(all, p, q) {
            Ok(model) => {
                assert forall|d: Declared, v: Seq<char>| #[trigger]
                    self.carries(d, v) implies at.contains(d) by {
                    assert(self.has(d));
                    let i = ds.index_of(d);
                    assert(self.carries(ds[i], v));
                }
                assert(self.accounts(at, model, p));
                assert forall|d: Declared| #[trigger] self.has(d) implies self.sound(d, p, q) by {
                    let i = ds.index_of(d);
                    assert(self.sound(ds[i], p, q));
                }
            },
            Err(f) => {
                let i = choose|i: int|
                    0 <= i < ds.len() && self.wrong(#[trigger] ds[i], p, q, f) && !self.sound(
                        ds[i],
                        p,
                        q,
                    ) && forall|j: int| 0 <= j < i ==> self.sound(#[trigger] ds[j], p, q);
                let d = ds[i];
                assert(ds.contains(d));
                assert(self.has(d));
                assert forall|e: Declared| #[trigger]
                    self.has(e) && self.rank(e) < self.rank(d) implies self.sound(e, p, q) by {
                    let j = ds.index_of(e);
                    assert(ds[j] == e);
                    if j > i {
                        assert(self.rank(ds[i]) < self.rank(ds[j]));
                    }
                }
            },
        }
    }
}

} // verus!
