//! Folding a typechecked policy set with the symbolic evaluator: every
//! policy's condition in every request environment is replaced by what the
//! evaluator makes of it under its assumptions, typed, and with the outcomes
//! it established.

use std::sync::Arc;

use vstd::prelude::*;

use crate::ast::{Data, Expr};
use crate::evaluator::err::EvaluationError;
use crate::evaluator::metadata::{typed_of, EvaluationMetadata};
use crate::evaluator::session::Evaluator;
use crate::slots::SlotEnv;
use crate::typechecked::{TypecheckError, TypecheckedPolicy, TypecheckedPolicySet};
use crate::types::{RequestEnv, Type};

verus! {

/// The view of a request environment.
pub type EnvView = (Seq<char>, (Seq<char>, Seq<char>), Seq<char>);

/// The evaluations that folding the first `n` policies takes: each policy, by
/// its position, in each environment in which its condition is not a static
/// error.
pub open spec fn evaluations(items: Seq<TypecheckedPolicy>, n: nat) -> Seq<(int, EnvView)>
    decreases n,
{
    if n == 0 {
        seq![]
    } else {
        evaluations(items, (n - 1) as nat) + at_policy(
            n - 1,
            items[n - 1].open_envs(items[n - 1].entries().len()),
        )
    }
}

/// The policy at position `k`, in each of `envs`.
pub open spec fn at_policy(k: int, envs: Seq<EnvView>) -> Seq<(int, EnvView)> {
    envs.map_values(|e: EnvView| (k, e))
}

/// The evaluations on a list.
pub open spec fn listed(todo: Seq<(usize, RequestEnv)>) -> Seq<(int, EnvView)> {
    todo.map_values(|t: (usize, RequestEnv)| (t.0 as int, t.1@))
}

/// A fold under way.
pub struct SymbolicFold {
    set: TypecheckedPolicySet,
    todo: Vec<(usize, RequestEnv)>,
    done: usize,
}

impl SymbolicFold {
    /// The set, folded as far as the fold has come.
    pub closed spec fn set_spec(&self) -> TypecheckedPolicySet {
        self.set
    }

    /// The evaluations it takes, done or not.
    pub closed spec fn todo_spec(&self) -> Seq<(int, EnvView)> {
        listed(self.todo@)
    }

    /// How many of them have been made.
    pub closed spec fn done_spec(&self) -> int {
        self.done as int
    }

    /// The evaluations are of policies of the set.
    pub open spec fn wf(&self) -> bool {
        &&& self.set_spec().wf()
        &&& 0 <= self.done_spec() <= self.todo_spec().len()
        &&& forall|i: int|
            0 <= i < self.todo_spec().len() ==> 0 <= (#[trigger] self.todo_spec()[i]).0
                < self.set_spec().items().len()
    }

    /// Starts folding `set`, which must have been built against the
    /// evaluator's schema.
    pub fn symbolic_fold(set: TypecheckedPolicySet, evaluator: &Evaluator) -> (r: Result<
        SymbolicFold,
        EvaluationError,
    >)
        requires
            set.wf(),
        ensures
            match r {
                Ok(f) => {
                    &&& forall|i: int|
                        0 <= i < set.items().len() ==> evaluator.schema_spec().same_as(
                            &(#[trigger] set.items()[i]).schema_spec(),
                        )
                    &&& f.wf()
                    &&& f.set_spec() == set
                    &&& f.todo_spec() == evaluations(set.items(), set.items().len())
                    &&& f.done_spec() == 0
                },
                Err(e) => e is SchemaMismatch && exists|i: int|
                    0 <= i < set.items().len() && !evaluator.schema_spec().same_as(
                        &(#[trigger] set.items()[i]).schema_spec(),
                    ),
            },
    {
        let schema = evaluator.schema();
        let mut todo: Vec<(usize, RequestEnv)> = Vec::new();
        let n = set.len();
        let mut k: usize = 0;
        assert(listed(todo@) =~= evaluations(set.items(), 0));
        while k < n
            invariant
                k <= n,
                n == set.items().len(),
                *schema == evaluator.schema_spec(),
                listed(todo@) == evaluations(set.items(), k as nat),
                forall|i: int| 0 <= i < todo@.len() ==> (#[trigger] todo@[i]).0 < n,
                forall|i: int|
                    0 <= i < k ==> evaluator.schema_spec().same_as(
                        &(#[trigger] set.items()[i]).schema_spec(),
                    ),
            decreases n - k,
        {
            let policy = set.nth(k);
            if !policy.same_schema(schema) {
                return Err(EvaluationError::SchemaMismatch);
            }
            let envs = policy.unresolved_envs();
            let ghost before = listed(todo@);
            let ghost views = crate::types::env_views(envs@);
            let mut i: usize = 0;
            assert(listed(todo@) =~= before + at_policy(k as int, views).take(0));
            while i < envs.len()
                invariant
                    i <= envs@.len(),
                    k < n,
                    views == crate::types::env_views(envs@),
                    listed(todo@) == before + at_policy(k as int, views).take(i as int),
                    forall|i: int| 0 <= i < todo@.len() ==> (#[trigger] todo@[i]).0 < n,
                decreases envs@.len() - i,
            {
                let ghost was = todo@;
                todo.push((k, envs[i].dup()));
                proof {
                    let mine = at_policy(k as int, views);
                    assert(mine[i as int] == (k as int, envs@[i as int]@));
                    assert(listed(todo@) =~= listed(was).push(mine[i as int]));
                    assert(mine.take(i + 1) =~= mine.take(i as int).push(mine[i as int]));
                    assert(listed(todo@) =~= before + mine.take(i + 1));
                }
                i += 1;
            }
            assert(listed(todo@) =~= before + at_policy(k as int, views));
            k += 1;
        }
        let f = SymbolicFold { set, todo, done: 0 };
        assert forall|i: int| 0 <= i < f.todo_spec().len() implies 0 <= (
        #[trigger] f.todo_spec()[i]).0 < f.set_spec().items().len() by {
            assert(todo@[i].0 < n);
        }
        Ok(f)
    }
}

impl SymbolicFold {
    /// The next evaluation: a policy's condition in an environment.
    pub fn next(&self) -> (r: Option<(&TypecheckedPolicy, &RequestEnv)>)
        requires
            self.wf(),
        ensures
            match r {
                Some((policy, env)) => {
                    &&& self.done_spec() < self.todo_spec().len()
                    &&& *policy == self.set_spec().items()[self.todo_spec()[self.done_spec()].0]
                    &&& env@ == self.todo_spec()[self.done_spec()].1
                },
                None => self.done_spec() == self.todo_spec().len(),
            },
    {
        if self.done < self.todo.len() {
            let t = &self.todo[self.done];
            assert(self.todo_spec()[self.done as int].0 == t.0);
            Some((self.set.nth(t.0), &t.1))
        } else {
            None
        }
    }

    /// Takes the result of the evaluation that [`SymbolicFold::next`] asked
    /// for: the policy's condition there is replaced by it. Fails, and changes
    /// no condition, if the result is not typed throughout or has no residual.
    pub fn record(&mut self, result: &Expr<EvaluationMetadata>) -> (r: Result<(), EvaluationError>)
        requires
            old(self).wf(),
            old(self).done_spec() < old(self).todo_spec().len(),
        ensures
            final(self).wf(),
            final(self).todo_spec() == old(self).todo_spec(),
            final(self).set_spec().ids() == old(self).set_spec().ids(),
            final(self).set_spec().policy_set_spec() == old(self).set_spec().policy_set_spec(),
            final(self).set_spec().schema_spec() == old(self).set_spec().schema_spec(),
            ({
                let (k, env) = old(self).todo_spec()[old(self).done_spec()];
                let was = old(self).set_spec().items()[k];
                let now = final(self).set_spec().items()[k];
                match r {
                    Ok(_) => {
                        &&& result.every_node_typed()
                        &&& final(self).done_spec() == old(self).done_spec() + 1
                        &&& final(self).set_spec().items() == old(self).set_spec().items().update(
                            k,
                            now,
                        )
                        &&& was.folds_to(&now, env, result)
                    },
                    Err(e) => {
                        &&& e is Internal
                        &&& final(self).done_spec() == old(self).done_spec()
                        &&& final(self).set_spec().items() == old(self).set_spec().items()
                        &&& !result.every_node_typed() || !was.keys().contains(env) || exists|
                            t: Expr<Option<Type>>,
                        | #[trigger]
                            result.types_are(t) && t.tree() == result.tree() && t.residual(
                                SlotEnv::none(),
                            ) is Err
                    },
                }
            }),
    {
        let typed = match typed_of(result) {
            Ok(t) => t,
            Err(e) => return Err(e),
        };
        let i = self.done;
        assert(i < self.todo@.len());
        assert(self.todo_spec()[i as int].0 == self.todo@[i as int].0);
        let k = self.todo[i].0;
        let env = self.todo[i].1.dup();
        let outcomes = result.data.outcomes().dup();
        let ghost was = self.set.items()[k as int];
        let ghost before = self.set;
        let policy = self.set.nth_mut(k);
        let r = policy.fold_env(&env, Arc::new(typed), outcomes);
        assert(i < self.todo.len());
        match r {
            Ok(_) => {
                self.done = i + 1;
                Ok(())
            },
            Err(e) => {
                assert(self.set.items() =~= before.items());
                Err(fold_error(e))
            },
        }
    }

    /// The folded set.
    pub fn finish(self) -> (r: TypecheckedPolicySet)
        requires
            self.wf(),
            self.done_spec() == self.todo_spec().len(),
        ensures
            r == self.set_spec(),
    {
        self.set
    }
}

/// An error of folding, as an error of the evaluator.
pub fn fold_error(e: TypecheckError) -> (r: EvaluationError)
    ensures
        r == match e {
            TypecheckError::NotWellTyped { errs } => EvaluationError::NotWellTyped { errs },
            _ => EvaluationError::Internal("folded condition is not typed"),
        },
{
    match e {
        TypecheckError::NotWellTyped { errs } => EvaluationError::NotWellTyped { errs },
        _ => EvaluationError::Internal("folded condition is not typed"),
    }
}

impl TypecheckedPolicy {
    /// What is known in `env` becomes the evaluation's result; nothing else
    /// changes.
    pub open spec fn folds_to(
        &self,
        new: &TypecheckedPolicy,
        env: EnvView,
        result: &Expr<EvaluationMetadata>,
    ) -> bool {
        &&& self.keys().contains(env)
        &&& exists|e: RequestEnv| #[trigger] self.differs_only_in(new, &e) && e@ == env && {
            &&& new.data(&e) matches Some(d)
            &&& d.outcomes@ == result.data.can_be()
            &&& d.typed matches Ok(t) && t.tree() == result.tree() && result.types_are(*t)
            &&& d.typed->Ok_0.residual(SlotEnv::none()) == Ok::<
                crate::residual::RTree,
                crate::residual::ExprToResidualError,
            >(d.residual@)
        }
    }
}

} // verus!
