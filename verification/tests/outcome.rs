//! Sets of outcomes, and expressions taken apart and put together again.

use std::sync::Arc;

use cedar_analysis::ast::{BinaryOp, Expr, ExprKind, Loc, Prim, Var};
use cedar_analysis::evaluator::EvaluationMetadata;
use cedar_analysis::expr_util::{children, erase, fits, map_data, with_children, with_data};
use cedar_analysis::expr_util::RebuildError;
use cedar_analysis::outcome::{EvaluationOutcome, Outcomes};
use cedar_analysis::types::Type;
use EvaluationOutcome::{Error as Er, False as Fa, True as Tr};

const ALL: [EvaluationOutcome; 3] = [Tr, Fa, Er];

fn flags(n: usize) -> (bool, bool, bool) {
    (n & 1 != 0, n & 2 != 0, n & 4 != 0)
}

fn set(n: usize) -> Outcomes {
    let (t, f, e) = flags(n);
    Outcomes::from_flags(t, f, e).unwrap()
}

fn members(s: &Outcomes) -> Vec<EvaluationOutcome> {
    ALL.iter().copied().filter(|o| s.contains(*o)).collect()
}

/// The outcomes that `f` takes over the members of `a` and `b`.
fn over<F>(a: &Outcomes, b: &Outcomes, f: F) -> Vec<EvaluationOutcome>
where
    F: Fn(EvaluationOutcome, EvaluationOutcome) -> EvaluationOutcome,
{
    let mut seen = Vec::new();
    for x in members(a) {
        for y in members(b) {
            seen.push(f(x, y));
        }
    }
    ALL.iter().copied().filter(|o| seen.contains(o)).collect()
}

#[test]
fn sets_hold_what_they_are_made_of() {
    assert!(Outcomes::from_flags(false, false, false).is_none());
    for n in 1..8 {
        let s = set(n);
        let (t, f, e) = flags(n);
        assert_eq!((s.contains(Tr), s.contains(Fa), s.contains(Er)), (t, f, e));
        assert_eq!(s.len(), members(&s).len());
        for m in 1..8 {
            assert_eq!(s.same(&set(m)), n == m);
        }
        for o in ALL {
            let more = s.with(o);
            for p in ALL {
                assert_eq!(more.contains(p), p == o || s.contains(p));
            }
        }
    }
    assert_eq!(members(&Outcomes::of(Er)), [Er]);
    assert_eq!(members(&Outcomes::literal(true)), [Tr]);
    assert_eq!(members(&Outcomes::literal(false)), [Fa]);
    assert_eq!(members(&Outcomes::all()), ALL);
}

#[test]
fn operators_combine_every_pair_of_outcomes() {
    let not = |x: EvaluationOutcome| match x {
        Tr => Fa,
        Fa => Tr,
        Er => Er,
    };
    for n in 1..8 {
        let a = set(n);
        assert_eq!(members(&a.negated()), over(&a, &a, |x, _| not(x)));
        for m in 1..8 {
            let b = set(m);
            let and = |x, y| if x == Tr { y } else { x };
            let or = |x, y| if x == Fa { y } else { x };
            assert_eq!(members(&a.and(&b)), over(&a, &b, and));
            assert_eq!(members(&a.or(&b)), over(&a, &b, or));
            for k in 1..8 {
                let c = set(k);
                let mut expected: Vec<EvaluationOutcome> = Vec::new();
                for test in members(&a) {
                    match test {
                        Tr => expected.extend(members(&b)),
                        Fa => expected.extend(members(&c)),
                        Er => expected.push(Er),
                    }
                }
                let found = Outcomes::ite(&a, &b, &c);
                for o in ALL {
                    assert_eq!(found.contains(o), expected.contains(&o));
                }
            }
        }
    }
}

#[test]
fn metadata_speaks_of_its_outcomes() {
    let m = EvaluationMetadata::from_flags(true, false, true).unwrap();
    assert!(m.can(Tr) && !m.can(Fa) && m.can(Er));
    assert_eq!(m.describe(), "{True, Error}");
    assert_eq!(m.negated().describe(), "{False, Error}");
    assert_eq!(EvaluationMetadata::default().describe(), "{True, False, Error}");
    assert_eq!(EvaluationMetadata::literal(false).describe(), "{False}");
    assert!(EvaluationMetadata::literal(true).is_literal(true));
    assert!(!EvaluationMetadata::literal(true).is_literal(false));
    assert!(EvaluationMetadata::literal(true).is_error_free());
    assert!(EvaluationMetadata::new(Outcomes::of(Er)).is_error());
    assert!(!m.is_error() && !m.is_error_free());
    assert!(EvaluationMetadata::from_flags(false, false, false).is_none());
    // the type of a node is no part of equality
    let typed = EvaluationMetadata::literal(true)
        .with_ty(Some(Type::Long));
    assert!(typed == EvaluationMetadata::literal(true));
    assert!(typed.ty().is_some());
    // a branch that is not visited can do anything
    let t = EvaluationMetadata::literal(true);
    assert_eq!(t.ite(Some(&m), None).describe(), "{True, Error}");
    let open = EvaluationMetadata::from_flags(true, true, false).unwrap();
    assert_eq!(open.and(&m).describe(), "{True, False, Error}");
    assert_eq!(open.or(&EvaluationMetadata::literal(true)).describe(), "{True}");
}

fn leaf(n: i64) -> Expr<u8> {
    Expr { kind: ExprKind::Lit(Prim::Long(n)), loc: Some(Loc { start: 1, end: 2 }), data: 7 }
}

fn sum() -> Expr<u8> {
    let kind = ExprKind::BinaryApp {
        op: BinaryOp::Add,
        arg1: Arc::new(leaf(1)),
        arg2: Arc::new(leaf(2)),
    };
    Expr { kind, loc: Some(Loc { start: 0, end: 5 }), data: 8 }
}

#[test]
fn children_are_taken_out_and_put_back() {
    let e = sum();
    assert_eq!(children(&e).len(), 2);
    let same = with_children(&e, vec![leaf(1), leaf(2)], 9u8).unwrap();
    assert!(same == e);
    assert_eq!((same.data, same.loc), (9, e.loc));
    let other = with_children(&e, vec![leaf(1), leaf(3)], 9u8).unwrap();
    assert!(other != e);
    match with_children(&e, vec![leaf(1)], 9u8) {
        Err(RebuildError::Unsupported(what)) => assert_eq!(what, "missing child in rebuild"),
        other => panic!("{other:?}"),
    }
    match with_children(&e, vec![leaf(1), leaf(2), leaf(3)], 9u8) {
        Err(RebuildError::Unsupported(what)) => assert_eq!(what, "extra child in rebuild"),
        other => panic!("{other:?}"),
    }
}

#[test]
fn data_is_replaced_and_the_rest_stays() {
    let e = sum();
    let doubled = map_data(&e, &|n: &u8| 2 * *n);
    assert_eq!(doubled.data, 16);
    assert!(children(&doubled).iter().all(|c| c.data == 14 && c.loc == Some(Loc { start: 1, end: 2 })));
    let erased = erase(&e);
    assert_eq!(erased.loc, e.loc);
    let root_only = with_data(&e, Some(Type::Long));
    assert!(matches!(root_only.data, Some(Type::Long)));
    assert!(children(&root_only).iter().all(|c| c.data.is_none()));
}

#[test]
fn depth_is_measured() {
    let mut e = Expr { kind: ExprKind::Var(Var::Principal), loc: None, data: () };
    for _ in 0..9 {
        e = Expr {
            kind: ExprKind::GetAttr { expr: Arc::new(e), attr: "manager".to_string() },
            loc: None,
            data: (),
        };
    }
    assert!(fits(&e, 10));
    assert!(!fits(&e, 9));
}
