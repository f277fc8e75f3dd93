//! Tables keyed by request environments.

use vstd::prelude::*;

use crate::ast::Data;
use crate::types::RequestEnv;

verus! {

/// A table with one value per request environment.
#[derive(Debug)]
pub struct EnvTable<V> {
    entries: Vec<(RequestEnv, V)>,
}

/// What the entries map the environments to; a later entry counts.
pub open spec fn mapped<V>(entries: Seq<(RequestEnv, V)>) -> Map<
    (Seq<char>, (Seq<char>, Seq<char>), Seq<char>),
    V,
>
    decreases entries.len(),
{
    if entries.len() == 0 {
        Map::empty()
    } else {
        mapped(entries.drop_last()).insert(entries.last().0@, entries.last().1)
    }
}

proof fn lemma_mapped_at<V>(entries: Seq<(RequestEnv, V)>, i: int)
    requires
        0 <= i < entries.len(),
        forall|j: int| i < j < entries.len() ==> (#[trigger] entries[j]).0@ != entries[i].0@,
    ensures
        mapped(entries).contains_key(entries[i].0@),
        mapped(entries)[entries[i].0@] == entries[i].1,
    decreases entries.len(),
{
    if i < entries.len() - 1 {
        let front = entries.drop_last();
        assert forall|j: int| i < j < front.len() implies (#[trigger] front[j]).0@
            != front[i].0@ by {
            assert(entries[j].0@ != entries[i].0@);
        }
        lemma_mapped_at(front, i);
        assert(entries[entries.len() - 1].0@ != entries[i].0@);
    }
}

proof fn lemma_mapped_none<V>(
    entries: Seq<(RequestEnv, V)>,
    k: (Seq<char>, (Seq<char>, Seq<char>), Seq<char>),
)
    requires
        forall|j: int| 0 <= j < entries.len() ==> (#[trigger] entries[j]).0@ != k,
    ensures
        !mapped(entries).contains_key(k),
    decreases entries.len(),
{
    if entries.len() > 0 {
        let front = entries.drop_last();
        assert forall|j: int| 0 <= j < front.len() implies (#[trigger] front[j]).0@ != k by {
            assert(entries[j].0@ != k);
        }
        lemma_mapped_none(front, k);
        assert(entries[entries.len() - 1].0@ != k);
    }
}

proof fn lemma_mapped_update<V>(entries: Seq<(RequestEnv, V)>, i: int, e: (RequestEnv, V))
    requires
        0 <= i < entries.len(),
        e.0@ == entries[i].0@,
        forall|j: int| i < j < entries.len() ==> (#[trigger] entries[j]).0@ != entries[i].0@,
    ensures
        mapped(entries.update(i, e)) == mapped(entries).insert(e.0@, e.1),
    decreases entries.len(),
{
    let new = entries.update(i, e);
    if i == entries.len() - 1 {
        assert(new.drop_last() =~= entries.drop_last());
        assert(mapped(new) =~= mapped(entries).insert(e.0@, e.1));
    } else {
        let front = entries.drop_last();
        assert(new.drop_last() =~= front.update(i, e));
        assert forall|j: int| i < j < front.len() implies (#[trigger] front[j]).0@
            != front[i].0@ by {
            assert(entries[j].0@ != entries[i].0@);
        }
        lemma_mapped_update(front, i, e);
        assert(entries[entries.len() - 1].0@ != entries[i].0@);
        assert(mapped(new) =~= mapped(entries).insert(e.0@, e.1));
    }
}

impl<V> EnvTable<V> {
    /// What the table maps the environments to.
    pub closed spec fn view(&self) -> Map<(Seq<char>, (Seq<char>, Seq<char>), Seq<char>), V> {
        mapped(self.entries@)
    }

    /// No environment comes twice.
    #[verifier::type_invariant]
    spec fn keys_are_distinct(self) -> bool {
        forall|i: int, j: int|
            0 <= i < j < self.entries@.len() ==> (#[trigger] self.entries@[i]).0@ != (
            #[trigger] self.entries@[j]).0@
    }

    /// An empty table.
    pub fn new() -> (r: Self)
        ensures
            r@ == Map::<(Seq<char>, (Seq<char>, Seq<char>), Seq<char>), V>::empty(),
    {
        EnvTable { entries: Vec::new() }
    }

    fn position(&self, env: &RequestEnv) -> (r: Option<usize>)
        ensures
            match r {
                Some(i) => i < self.entries@.len() && self.entries@[i as int].0@ == env@,
                None => forall|j: int|
                    0 <= j < self.entries@.len() ==> (#[trigger] self.entries@[j]).0@ != env@,
            },
    {
        let mut i: usize = 0;
        while i < self.entries.len()
            invariant
                i <= self.entries@.len(),
                forall|j: int| 0 <= j < i ==> (#[trigger] self.entries@[j]).0@ != env@,
            decreases self.entries@.len() - i,
        {
            if self.entries[i].0 == *env {
                return Some(i);
            }
            i += 1;
        }
        None
    }

    /// The value for `env`, if there is one.
    pub fn get(&self, env: &RequestEnv) -> (r: Option<&V>)
        ensures
            match r {
                Some(v) => self@.contains_key(env@) && self@[env@] == *v,
                None => !self@.contains_key(env@),
            },
    {
        proof {
            use_type_invariant(&*self);
        }
        match self.position(env) {
            Some(i) => {
                proof {
                    lemma_mapped_at(self.entries@, i as int);
                }
                Some(&self.entries[i].1)
            },
            None => {
                proof {
                    lemma_mapped_none(self.entries@, env@);
                }
                None
            },
        }
    }

    /// Puts `v` as the value for `env`.
    pub fn put(&mut self, env: &RequestEnv, v: V)
        ensures
            final(self)@ == old(self)@.insert(env@, v),
    {
        proof {
            use_type_invariant(&*self);
        }
        let ghost before = self.entries@;
        let at = self.position(env);
        let mut entries: Vec<(RequestEnv, V)> = Vec::new();
        std::mem::swap(&mut entries, &mut self.entries);
        match at {
            Some(i) => {
                let e = (env.dup(), v);
                proof {
                    lemma_mapped_update(before, i as int, e);
                }
                entries.set(i, e);
            },
            None => {
                entries.push((env.dup(), v));
                assert(entries@.drop_last() =~= before);
            },
        }
        self.entries = entries;
    }
}

} // verus!
