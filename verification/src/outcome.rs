//! The outcomes of evaluating a boolean expression, and non-empty sets of
//! them.

use std::sync::Arc;

use nonempty_collections::NESet;
use vstd::prelude::*;

use crate::ast::{share, Data};

verus! {

/// What the evaluation of a boolean expression gives.
#[derive(Clone, Copy, Debug, PartialEq, Eq, Hash, Structural)]
pub enum EvaluationOutcome {
    True,
    False,
    Error,
}

impl EvaluationOutcome {
    /// The outcome of `!`.
    pub open spec fn flip(self) -> EvaluationOutcome {
        match self {
            EvaluationOutcome::True => EvaluationOutcome::False,
            EvaluationOutcome::False => EvaluationOutcome::True,
            EvaluationOutcome::Error => EvaluationOutcome::Error,
        }
    }

    /// The outcome that is the boolean `b`.
    pub open spec fn of_bool(b: bool) -> EvaluationOutcome {
        if b {
            EvaluationOutcome::True
        } else {
            EvaluationOutcome::False
        }
    }

    /// The number that stands for the outcome.
    spec fn code_spec(self) -> u8 {
        match self {
            EvaluationOutcome::True => 0u8,
            EvaluationOutcome::False => 1u8,
            EvaluationOutcome::Error => 2u8,
        }
    }

    fn code(self) -> (r: u8)
        ensures
            r == self.code_spec(),
    {
        match self {
            EvaluationOutcome::True => 0,
            EvaluationOutcome::False => 1,
            EvaluationOutcome::Error => 2,
        }
    }
}

/// A set with at least one element.
#[verifier::external_type_specification]
#[verifier::external_body]
#[verifier::reject_recursive_types(T)]
#[verifier::reject_recursive_types(S)]
pub struct ExNESet<T, S>(NESet<T, S>);

/// The elements of a set of numbers.
pub uninterp spec fn elements(s: NESet<u8>) -> Set<u8>;

/// The set of `x` alone.
///
/// Calls `NESet::new`, which makes a set that holds the one element it is
/// given.
#[verifier::external_body]
fn singleton(x: u8) -> (r: NESet<u8>)
    ensures
        elements(r) == set![x],
{
    NESet::new(x)
}

/// Adds `x` to `s`, and says whether it was not in it before.
///
/// Calls `NESet::insert`, which adds the element to the underlying hash set
/// and returns `true` exactly if it was not there.
#[verifier::external_body]
fn add_element(s: &mut NESet<u8>, x: u8) -> (fresh: bool)
    ensures
        elements(*final(s)) == elements(*old(s)).insert(x),
        fresh == !elements(*old(s)).contains(x),
{
    s.insert(x)
}

/// Whether `x` is in `s`.
///
/// Calls `NESet::contains`.
#[verifier::external_body]
fn has_element(s: &NESet<u8>, x: u8) -> (r: bool)
    ensures
        r == elements(*s).contains(x),
{
    s.contains(&x)
}

/// The number of elements of `s`.
///
/// Calls `NESet::len`, which gives the number of elements of the underlying
/// hash set.
#[verifier::external_body]
fn element_count(s: &NESet<u8>) -> (r: usize)
    ensures
        r == elements(*s).len(),
{
    s.len().get()
}

/// A non-empty set of outcomes.
#[derive(Debug)]
pub struct Outcomes {
    codes: Arc<NESet<u8>>,
}

impl View for Outcomes {
    type V = Set<EvaluationOutcome>;

    closed spec fn view(&self) -> Set<EvaluationOutcome> {
        Set::new(|o: EvaluationOutcome| self.numbers().contains(o.code_spec()))
    }
}

impl Data for Outcomes {
    fn dup(&self) -> (r: Self) {
        proof {
            use_type_invariant(self);
        }
        Outcomes { codes: share(&self.codes) }
    }
}

impl Outcomes {
    /// The numbers that stand for the outcomes in the set.
    spec fn numbers(&self) -> Set<u8> {
        elements(*self.codes)
    }

    /// Only outcomes are in the set, and at least one is.
    #[verifier::type_invariant]
    spec fn holds_outcomes(self) -> bool {
        &&& forall|x: u8| #[trigger] elements(*self.codes).contains(x) ==> x <= 2
        &&& elements(*self.codes).contains(0) || elements(*self.codes).contains(1) || elements(
            *self.codes,
        ).contains(2)
    }

    /// The set of the given outcomes; `None` if none is given.
    pub open spec fn flags(can_true: bool, can_false: bool, can_error: bool) -> Set<
        EvaluationOutcome,
    > {
        Set::new(
            |o: EvaluationOutcome|
                match o {
                    EvaluationOutcome::True => can_true,
                    EvaluationOutcome::False => can_false,
                    EvaluationOutcome::Error => can_error,
                },
        )
    }

    /// The outcomes of `!` on an operand with the outcomes `s`.
    pub open spec fn not_of(s: Set<EvaluationOutcome>) -> Set<EvaluationOutcome> {
        Set::new(|o: EvaluationOutcome| s.contains(o.flip()))
    }

    /// The outcomes of `&&`: those of the right side where the left one can be
    /// true, and those of the left one that decide.
    pub open spec fn and_of(l: Set<EvaluationOutcome>, r: Set<EvaluationOutcome>) -> Set<
        EvaluationOutcome,
    > {
        Set::new(
            |o: EvaluationOutcome|
                (l.contains(EvaluationOutcome::True) && r.contains(o)) || (o
                    != EvaluationOutcome::True && l.contains(o)),
        )
    }

    /// The outcomes of `||`: those of the right side where the left one can be
    /// false, and those of the left one that decide.
    pub open spec fn or_of(l: Set<EvaluationOutcome>, r: Set<EvaluationOutcome>) -> Set<
        EvaluationOutcome,
    > {
        Set::new(
            |o: EvaluationOutcome|
                (l.contains(EvaluationOutcome::False) && r.contains(o)) || (o
                    != EvaluationOutcome::False && l.contains(o)),
        )
    }

    /// The outcomes of `if`: those of the branches that the test can take, and
    /// the error if the test can err.
    pub open spec fn ite_of(
        c: Set<EvaluationOutcome>,
        t: Set<EvaluationOutcome>,
        e: Set<EvaluationOutcome>,
    ) -> Set<EvaluationOutcome> {
        Set::new(
            |o: EvaluationOutcome|
                (c.contains(EvaluationOutcome::True) && t.contains(o)) || (c.contains(
                    EvaluationOutcome::False,
                ) && e.contains(o)) || (o == EvaluationOutcome::Error && c.contains(o)),
        )
    }

    /// The outcome `o` alone.
    pub fn of(o: EvaluationOutcome) -> (r: Outcomes)
        ensures
            r@ == set![o],
    {
        let codes = Arc::new(singleton(o.code()));
        let r = Outcomes { codes };
        assert(r@ =~= set![o]);
        r
    }

    /// The boolean `b` alone.
    pub fn literal(b: bool) -> (r: Outcomes)
        ensures
            r@ == set![EvaluationOutcome::of_bool(b)],
    {
        Self::of(
            if b {
                EvaluationOutcome::True
            } else {
                EvaluationOutcome::False
            },
        )
    }

    /// The given outcomes; `None` if there are none.
    pub fn from_flags(can_true: bool, can_false: bool, can_error: bool) -> (r: Option<Outcomes>)
        ensures
            match r {
                Some(s) => {
                    &&& can_true || can_false || can_error
                    &&& s@ == Self::flags(can_true, can_false, can_error)
                },
                None => !can_true && !can_false && !can_error,
            },
    {
        let first: u8 = if can_true {
            0
        } else if can_false {
            1
        } else if can_error {
            2
        } else {
            return None;
        };
        let mut s = singleton(first);
        if can_false {
            add_element(&mut s, 1);
        }
        if can_error {
            add_element(&mut s, 2);
        }
        let codes = Arc::new(s);
        let r = Outcomes { codes };
        assert(r@ =~= Self::flags(can_true, can_false, can_error));
        Some(r)
    }

    /// The given outcomes, of which there is at least one.
    fn of_flags(can_true: bool, can_false: bool, can_error: bool) -> (r: Outcomes)
        requires
            can_true || can_false || can_error,
        ensures
            r@ == Self::flags(can_true, can_false, can_error),
    {
        match Self::from_flags(can_true, can_false, can_error) {
            Some(r) => r,
            None => Self::of(EvaluationOutcome::Error),
        }
    }

    /// All three outcomes.
    pub fn all() -> (r: Outcomes)
        ensures
            r@ == Self::flags(true, true, true),
    {
        Self::of_flags(true, true, true)
    }

    /// Whether `o` is in the set.
    pub fn contains(&self, o: EvaluationOutcome) -> (r: bool)
        ensures
            r == self@.contains(o),
    {
        has_element(&self.codes, o.code())
    }

    /// The number of outcomes in the set.
    pub fn len(&self) -> (n: usize)
        ensures
            self@.finite(),
            n == self@.len(),
            n >= 1,
    {
        let n = element_count(&self.codes);
        proof {
            use_type_invariant(&*self);
            self.lemma_len();
        }
        n
    }

    /// As many outcomes as numbers that stand for them.
    proof fn lemma_len(&self)
        requires
            self.holds_outcomes(),
        ensures
            self@.finite(),
            self@.len() == self.numbers().len(),
            self@.len() >= 1,
    {
        let codes = self.numbers();
        let outs = self@;
        let numbers = set![0u8, 1u8, 2u8];
        assert(codes.subset_of(numbers));
        vstd::set_lib::lemma_set_subset_finite(numbers, codes);
        let f = |o: EvaluationOutcome| o.code_spec();
        let all = set![EvaluationOutcome::True, EvaluationOutcome::False, EvaluationOutcome::Error];
        assert(outs.subset_of(all)) by {
            assert forall|o: EvaluationOutcome| outs.contains(o) implies all.contains(o) by {
                match o {
                    EvaluationOutcome::True => {},
                    EvaluationOutcome::False => {},
                    EvaluationOutcome::Error => {},
                }
            }
        }
        vstd::set_lib::lemma_set_subset_finite(all, outs);
        assert(outs.map(f) =~= codes) by {
            assert forall|x: u8| codes.contains(x) implies outs.map(f).contains(x) by {
                if x == 0 {
                    assert(outs.contains(EvaluationOutcome::True));
                    assert(f(EvaluationOutcome::True) == x);
                } else if x == 1 {
                    assert(outs.contains(EvaluationOutcome::False));
                    assert(f(EvaluationOutcome::False) == x);
                } else {
                    assert(outs.contains(EvaluationOutcome::Error));
                    assert(f(EvaluationOutcome::Error) == x);
                }
            }
        }
        assert(vstd::relations::injective(f));
        vstd::set_lib::lemma_map_size(outs, codes, f);
        if codes.len() == 0 {
            assert(codes =~= Set::empty());
        }
    }

    /// The set with `o` in it.
    pub fn with(&self, o: EvaluationOutcome) -> (r: Outcomes)
        ensures
            r@ == self@.insert(o),
    {
        let r = Self::of_flags(
            self.contains(EvaluationOutcome::True) || o == EvaluationOutcome::True,
            self.contains(EvaluationOutcome::False) || o == EvaluationOutcome::False,
            self.contains(EvaluationOutcome::Error) || o == EvaluationOutcome::Error,
        );
        assert(r@ =~= self@.insert(o));
        r
    }

    /// The outcomes of `!`.
    pub fn negated(&self) -> (r: Outcomes)
        ensures
            r@ == Self::not_of(self@),
    {
        proof {
            use_type_invariant(self);
        }
        let r = Self::of_flags(
            self.contains(EvaluationOutcome::False),
            self.contains(EvaluationOutcome::True),
            self.contains(EvaluationOutcome::Error),
        );
        assert(r@ =~= Self::not_of(self@));
        r
    }

    /// The outcomes of `&&`.
    pub fn and(&self, other: &Outcomes) -> (r: Outcomes)
        ensures
            r@ == Self::and_of(self@, other@),
    {
        proof {
            use_type_invariant(self);
            use_type_invariant(other);
        }
        let l_true = self.contains(EvaluationOutcome::True);
        let r = Self::of_flags(
            l_true && other.contains(EvaluationOutcome::True),
            self.contains(EvaluationOutcome::False) || (l_true && other.contains(
                EvaluationOutcome::False,
            )),
            self.contains(EvaluationOutcome::Error) || (l_true && other.contains(
                EvaluationOutcome::Error,
            )),
        );
        assert(r@ =~= Self::and_of(self@, other@));
        r
    }

    /// The outcomes of `||`.
    pub fn or(&self, other: &Outcomes) -> (r: Outcomes)
        ensures
            r@ == Self::or_of(self@, other@),
    {
        proof {
            use_type_invariant(self);
            use_type_invariant(other);
        }
        let l_false = self.contains(EvaluationOutcome::False);
        let r = Self::of_flags(
            self.contains(EvaluationOutcome::True) || (l_false && other.contains(
                EvaluationOutcome::True,
            )),
            l_false && other.contains(EvaluationOutcome::False),
            self.contains(EvaluationOutcome::Error) || (l_false && other.contains(
                EvaluationOutcome::Error,
            )),
        );
        assert(r@ =~= Self::or_of(self@, other@));
        r
    }

    /// The outcomes of `if`, for those of the test and of the branches.
    pub fn ite(test: &Outcomes, t: &Outcomes, e: &Outcomes) -> (r: Outcomes)
        ensures
            r@ == Self::ite_of(test@, t@, e@),
    {
        proof {
            use_type_invariant(test);
            use_type_invariant(t);
            use_type_invariant(e);
        }
        let c_true = test.contains(EvaluationOutcome::True);
        let c_false = test.contains(EvaluationOutcome::False);
        let r = Self::of_flags(
            (c_true && t.contains(EvaluationOutcome::True)) || (c_false && e.contains(
                EvaluationOutcome::True,
            )),
            (c_true && t.contains(EvaluationOutcome::False)) || (c_false && e.contains(
                EvaluationOutcome::False,
            )),
            test.contains(EvaluationOutcome::Error) || (c_true && t.contains(
                EvaluationOutcome::Error,
            )) || (c_false && e.contains(EvaluationOutcome::Error)),
        );
        assert(r@ =~= Self::ite_of(test@, t@, e@));
        r
    }

    /// Whether both sets hold the same outcomes.
    pub fn same(&self, other: &Outcomes) -> (r: bool)
        ensures
            r == (self@ == other@),
    {
        let r = self.contains(EvaluationOutcome::True) == other.contains(EvaluationOutcome::True)
            && self.contains(EvaluationOutcome::False) == other.contains(EvaluationOutcome::False)
            && self.contains(EvaluationOutcome::Error) == other.contains(EvaluationOutcome::Error);
        proof {
            if r {
                assert forall|o: EvaluationOutcome| self@.contains(o) == other@.contains(o) by {
                    match o {
                        EvaluationOutcome::True => {},
                        EvaluationOutcome::False => {},
                        EvaluationOutcome::Error => {},
                    }
                }
                assert(self@ =~= other@);
            }
        }
        r
    }
}

} // verus!
