//! What messages and names hold, and where.

use vstd::prelude::*;

use crate::semantics::{entity_text, SemanticsError, TypeName};
use crate::simplify::SimplifyError;

verus! {

/// The text holds the parts, one behind the other.
pub open spec fn holds_in_order(text: Seq<char>, parts: Seq<Seq<char>>) -> bool
    decreases parts.len(),
{
    parts.len() == 0 || exists|i: int|
        0 <= i <= text.len() - parts[0].len() && #[trigger] text.subrange(
            i,
            i + parts[0].len(),
        ) == parts[0] && holds_in_order(
            text.subrange(i + parts[0].len(), text.len() as int),
            parts.drop_first(),
        )
}

/// A text that begins with something, then has a part and then the rest of the
/// parts in order holds all of them in order.
proof fn lemma_holds(
    text: Seq<char>,
    before: Seq<char>,
    rest: Seq<char>,
    parts: Seq<Seq<char>>,
)
    requires
        parts.len() > 0,
        text == before + (parts[0] + rest),
        holds_in_order(rest, parts.drop_first()),
    ensures
        holds_in_order(text, parts),
{
    let i = before.len() as int;
    let n = parts[0].len();
    assert(text.subrange(i, i + n) =~= parts[0]);
    assert(text.subrange(i + n, text.len() as int) =~= rest);
}

proof fn lemma_six(
    s0: Seq<char>,
    a: Seq<char>,
    s1: Seq<char>,
    b: Seq<char>,
    s2: Seq<char>,
    c: Seq<char>,
    s3: Seq<char>,
    d: Seq<char>,
)
    ensures
        s0 + a + s1 + b + s2 + c + s3 + d == s0 + (a + (s1 + (b + (s2 + (c + (s3 + (d
            + Seq::<char>::empty()))))))),
{
    let t = s3 + (d + Seq::<char>::empty());
    let head = s0 + a + s1 + b;
    assert(head + s2 + c + s3 + d =~= head + (s2 + (c + t)));
    let rest = s2 + (c + t);
    assert(head + rest =~= s0 + (a + (s1 + (b + rest))));
}

/// The text of an environment holds its principal, its action and its resource,
/// wherever it stands.
proof fn lemma_env_holds(
    principal: Seq<char>,
    action: Seq<char>,
    resource: Seq<char>,
    before: Seq<char>,
    after: Seq<char>,
    more: Seq<Seq<char>>,
)
    requires
        holds_in_order(after, more),
    ensures
        holds_in_order(
            before + (crate::simplify::run::env_text(principal, action, resource) + after),
            seq![principal, action, resource] + more,
        ),
{
    let s2 = before + "(principal: "@;
    let s3 = ", action: "@;
    let s4 = ", resource: "@;
    let t5 = ")"@ + after;
    let t4 = s4 + (resource + t5);
    let t3 = s3 + (action + t4);
    let one = seq![resource] + more;
    let two = seq![action] + one;
    let three = seq![principal] + two;
    assert(one.drop_first() =~= more && one[0] == resource);
    assert(two.drop_first() =~= one && two[0] == action);
    assert(three.drop_first() =~= two && three[0] == principal);
    lemma_later(after, ")"@, more);
    lemma_holds(t4, s4, t5, one);
    lemma_holds(t3, s3, t4, two);
    lemma_holds(s2 + (principal + t3), s2, t3, three);
    assert(three =~= seq![principal, action, resource] + more);
    let env = crate::simplify::run::env_text(principal, action, resource);
    assert(env + after =~= "(principal: "@ + (principal + t3));
    assert(before + (env + after) =~= s2 + (principal + t3));
}

/// What a text holds it holds behind another too.
proof fn lemma_later(text: Seq<char>, before: Seq<char>, parts: Seq<Seq<char>>)
    requires
        holds_in_order(text, parts),
    ensures
        holds_in_order(before + text, parts),
{
    if parts.len() > 0 {
        let n = parts[0].len();
        let i = choose|i: int|
            0 <= i <= text.len() - n && #[trigger] text.subrange(i, i + n) == parts[0]
                && holds_in_order(text.subrange(i + n, text.len() as int), parts.drop_first());
        let all = before + text;
        let j = before.len() + i;
        assert(all.subrange(j, j + n) =~= parts[0]);
        assert(all.subrange(j + n, all.len() as int) =~= text.subrange(i + n, text.len() as int));
    }
}

/// The text ends with the part.
pub open spec fn ends_with(text: Seq<char>, part: Seq<char>) -> bool {
    text.len() >= part.len() && text.skip(text.len() - part.len()) == part
}

impl SimplifyError {
    /// The message of an error holds what the error is about: an assumption's
    /// origin and expression, the principal, the action and the resource of the
    /// environment and what is wrong, in this order.
    pub proof fn law_message_says_what_it_is_about(&self, inner: Seq<char>)
        ensures
            match self {
                SimplifyError::Parse(m) => ends_with(self.text(inner), m@),
                SimplifyError::AssumptionNotWellTyped {
                    origin,
                    expression,
                    principal,
                    action,
                    resource,
                    message,
                } => holds_in_order(
                    self.text(inner),
                    seq![origin@, expression@, principal@, action@, resource@, message@],
                ) && ends_with(self.text(inner), message@),
                SimplifyError::UnsatisfiableAssumptions { principal, action, resource } =>
                    holds_in_order(self.text(inner), seq![principal@, action@, resource@]),
                SimplifyError::Evaluation(_) => ends_with(self.text(inner), inner),
            },
    {
        let text = self.text(inner);
        match self {
            SimplifyError::Parse(m) => {
                assert(text.skip(text.len() - m@.len()) =~= m@);
            },
            SimplifyError::Evaluation(_) => {
                assert(text.skip(text.len() - inner.len()) =~= inner);
            },
            SimplifyError::AssumptionNotWellTyped {
                origin,
                expression,
                principal,
                action,
                resource,
                message,
            } => {
                let env = crate::simplify::run::env_text(principal@, action@, resource@);
                let s0 = "the @semantics assumption on "@;
                let s1 = " (`"@;
                let s2 = "`) is not well typed in the request environment "@;
                let t5 = ": "@ + (message@ + Seq::<char>::empty());
                let t2 = s2 + (env + t5);
                let t1 = s1 + (expression@ + t2);
                assert(seq![message@].drop_first() =~= seq![]);
                lemma_holds(t5, ": "@, Seq::empty(), seq![message@]);
                lemma_env_holds(principal@, action@, resource@, s2, t5, seq![message@]);
                let three = seq![principal@, action@, resource@] + seq![message@];
                let four = seq![expression@] + three;
                let parts = seq![origin@] + four;
                assert(four.drop_first() =~= three && four[0] == expression@);
                assert(parts.drop_first() =~= four && parts[0] == origin@);
                lemma_holds(t1, s1, t2, four);
                lemma_holds(s0 + (origin@ + t1), s0, t1, parts);
                assert(parts =~= seq![
                    origin@,
                    expression@,
                    principal@,
                    action@,
                    resource@,
                    message@,
                ]);
                lemma_six(s0, origin@, s1, expression@, s2, env, ": "@, message@);
                assert(text.skip(text.len() - message@.len()) =~= message@);
            },
            SimplifyError::UnsatisfiableAssumptions { principal, action, resource } => {
                let env = crate::simplify::run::env_text(principal@, action@, resource@);
                let s2 =
                    "the @semantics assumptions are unsatisfiable in the request environment "@;
                lemma_env_holds(principal@, action@, resource@, s2, Seq::empty(), seq![]);
                assert(s2 + (env + Seq::<char>::empty()) =~= text);
                assert(seq![principal@, action@, resource@] + Seq::<Seq<char>>::empty() =~= seq![
                    principal@,
                    action@,
                    resource@,
                ]);
            },
        }
    }
}

impl SemanticsError {
    /// The message of an error holds what the error is about.
    pub proof fn law_message_says_what_is_wrong(&self)
        ensures
            match self {
                SemanticsError::Parse { origin, message } => holds_in_order(
                    self.text(),
                    seq![origin@, message@],
                ) && ends_with(self.text(), message@),
                SemanticsError::Fragment(m) => ends_with(self.text(), m@),
                SemanticsError::Namespace(d) => holds_in_order(self.text(), seq![d@]),
            },
    {
        let text = self.text();
        match self {
            SemanticsError::Parse { origin, message } => {
                let (a, b) = (origin@, message@);
                let s0 = "the @semantics annotation on "@;
                let s1 = " does not parse: "@;
                let t2 = Seq::<char>::empty();
                let t1 = s1 + (b + t2);
                assert(text =~= s0 + (a + t1));
                assert(text.skip(text.len() - b.len()) =~= b);
                assert(seq![a, b].drop_first() =~= seq![b]);
                assert(seq![b].drop_first() =~= seq![]);
                lemma_holds(t1, s1, t2, seq![b]);
                lemma_holds(text, s0, t1, seq![a, b]);
            },
            SemanticsError::Fragment(m) => {
                assert(text.skip(text.len() - m@.len()) =~= m@);
            },
            SemanticsError::Namespace(d) => {
                let s0 = "the @semantics annotations cannot be read, the namespace of "@;
                let t1 = " does not parse"@;
                assert(text =~= s0 + (d@ + t1));
                assert(seq![d@].drop_first() =~= seq![]);
                lemma_holds(text, s0, t1, seq![d@]);
            },
        }
    }
}

impl TypeName {
    /// The name in full ends with the name within the namespace, and begins with
    /// the namespace and `::` exactly if there is more.
    pub proof fn law_full_name(&self)
        ensures
            ends_with(self.text(), self.basename@),
            self.namespace@.len() == 0 ==> self.text().len() == self.basename@.len(),
            self.namespace@.len() > 0 ==> self.text().take(
                self.text().len() - self.basename@.len(),
            ) == self.namespace@ + seq![':', ':'],
    {
        reveal_strlit("::");
        let t = self.text();
        let n = t.len() - self.basename@.len();
        assert(t.skip(n) =~= self.basename@);
        if self.namespace@.len() > 0 {
            assert("::"@ =~= seq![':', ':']);
            assert(t.take(n) =~= self.namespace@ + seq![':', ':']);
        }
    }
}

/// An entity is written with its type, `::` and its id in quotes.
pub proof fn law_entity_is_written_with_its_type(ty: Seq<char>, eid: Seq<char>)
    ensures
        ({
            let t = entity_text(ty, eid);
            let n = ty.len() as int;
            &&& t.len() == n + crate::text::escaped(eid).len() + 4
            &&& t.take(n) == ty
            &&& t[n] == ':' && t[n + 1] == ':' && t[n + 2] == '"' && t.last() == '"'
            &&& t.subrange(n + 3, t.len() - 1) == crate::text::escaped(eid)
        }),
{
    reveal_strlit("::\"");
    reveal_strlit("\"");
    let t = entity_text(ty, eid);
    let n = ty.len() as int;
    assert(t.take(n) =~= ty);
    assert(t.subrange(n + 3, t.len() - 1) =~= crate::text::escaped(eid));
}

} // verus!
