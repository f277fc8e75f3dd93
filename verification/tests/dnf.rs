//! Normal forms: conversion, splitting, elimination, and the policies made of
//! them.

#![allow(dead_code)]

use std::cell::RefCell;
use std::sync::Arc;

use cedar_analysis::ast::{
    BinaryOp, Data, EntityUid, Expr, ExprKind, Loc, PatternElem, Prim, SlotId, UnaryOp, Var,
};
use cedar_analysis::dnf::{
    allow_cubes, combine_allow_deny, conjuncts, deny_witness, eliminate_aggregates, interpret,
    likes_have_wildcards, normalize_atoms, rewrite_like, split_atoms, split_policy,
    split_policy_set, Cube, Dnf, DnfError, DEFAULT_MAX_CUBES, DEFAULT_MAX_SPLIT_NODES,
};
use cedar_analysis::dnf::policy::static_copies;
use cedar_analysis::iferror::is_iferror_call;
use cedar_analysis::outcome::EvaluationOutcome;
use cedar_analysis::policy::{
    ActionConstraint, Decision, Effect, EntityRef, Policy, PolicySet, ScopeConstraint,
};
use cedar_analysis::typechecked::{Checked, PolicyCheck};
use cedar_analysis::types::{RequestEnv, Schema, Type};
use EvaluationOutcome::{Error as Er, False as Fa, True as Tr};

// ---------------------------------------------------------------------------
// A reader and a printer for expressions

#[derive(Clone, Debug, PartialEq)]
enum Tok {
    Word(String),
    Num(i64),
    Text(String),
    Sym(String),
    Slot(String),
}

struct Reader {
    toks: Vec<(Tok, usize, usize)>,
    at: usize,
}

fn lex(text: &str) -> Vec<(Tok, usize, usize)> {
    let chars: Vec<(usize, char)> = text.char_indices().collect();
    let offset = |i: usize| chars.get(i).map_or(text.len(), |c| c.0);
    let mut out = Vec::new();
    let mut i: usize = 0;
    while i < chars.len() {
        let c = chars[i].1;
        let start = i;
        if c.is_whitespace() {
            i += 1;
            continue;
        }
        let tok = if c.is_alphabetic() || c == '_' {
            while i < chars.len() && (chars[i].1.is_alphanumeric() || chars[i].1 == '_') {
                i += 1;
            }
            Tok::Word(chars[start..i].iter().map(|c| c.1).collect())
        } else if c.is_ascii_digit() {
            while i < chars.len() && chars[i].1.is_ascii_digit() {
                i += 1;
            }
            let digits: String = chars[start..i].iter().map(|c| c.1).collect();
            Tok::Num(digits.parse().unwrap())
        } else if c == '"' {
            i += 1;
            let mut s = String::new();
            while chars[i].1 != '"' {
                if chars[i].1 == '\\' {
                    s.push('\\');
                    i += 1;
                }
                s.push(chars[i].1);
                i += 1;
            }
            i += 1;
            Tok::Text(s)
        } else if c == '?' {
            i += 1;
            while i < chars.len() && chars[i].1.is_alphabetic() {
                i += 1;
            }
            Tok::Slot(chars[start + 1..i].iter().map(|c| c.1).collect())
        } else {
            let two: String = chars[i..].iter().take(2).map(|c| c.1).collect();
            if ["&&", "||", "==", "!=", "<=", ">=", "::"].contains(&two.as_str()) {
                i += 2;
                Tok::Sym(two)
            } else {
                i += 1;
                Tok::Sym(c.to_string())
            }
        };
        out.push((tok, offset(start), offset(i)));
    }
    out
}

fn unescape(s: &str) -> String {
    let mut out = String::new();
    let mut chars = s.chars();
    while let Some(c) = chars.next() {
        out.push(if c == '\\' { chars.next().unwrap() } else { c });
    }
    out
}

fn pattern(s: &str) -> Vec<PatternElem> {
    let mut out = Vec::new();
    let mut chars = s.chars();
    while let Some(c) = chars.next() {
        out.push(match c {
            '\\' => PatternElem::Char(chars.next().unwrap()),
            '*' => PatternElem::Wildcard,
            c => PatternElem::Char(c),
        });
    }
    out
}

fn mk(kind: ExprKind<()>) -> Expr<()> {
    Expr { kind, loc: None, data: () }
}

fn un(op: UnaryOp, arg: Expr<()>) -> Expr<()> {
    mk(ExprKind::UnaryApp { op, arg: Arc::new(arg) })
}

fn bin(op: BinaryOp, a: Expr<()>, b: Expr<()>) -> Expr<()> {
    mk(ExprKind::BinaryApp { op, arg1: Arc::new(a), arg2: Arc::new(b) })
}

impl Reader {
    fn is(&self, s: &str) -> bool {
        match self.toks.get(self.at) {
            Some((Tok::Sym(x), _, _)) | Some((Tok::Word(x), _, _)) => x == s,
            _ => false,
        }
    }

    fn eat(&mut self, s: &str) -> bool {
        let yes = self.is(s);
        if yes {
            self.at += 1;
        }
        yes
    }

    fn need(&mut self, s: &str) {
        assert!(self.eat(s), "expected `{s}` at {:?}", self.toks.get(self.at));
    }

    fn word(&mut self) -> String {
        match self.toks[self.at].0.clone() {
            Tok::Word(w) => {
                self.at += 1;
                w
            }
            t => panic!("expected a name, got {t:?}"),
        }
    }

    /// `e` with the range of the text from token `from` up to here.
    fn located(&self, from: usize, e: Expr<()>) -> Expr<()> {
        let loc = Loc { start: self.toks[from].1, end: self.toks[self.at - 1].2 };
        Expr { kind: e.kind, loc: Some(loc), data: () }
    }

    fn expr(&mut self) -> Expr<()> {
        let from = self.at;
        if self.eat("if") {
            let c = self.expr();
            self.need("then");
            let a = self.expr();
            self.need("else");
            let b = self.expr();
            let e = mk(ExprKind::If {
                test_expr: Arc::new(c),
                then_expr: Arc::new(a),
                else_expr: Arc::new(b),
            });
            return self.located(from, e);
        }
        let mut e = self.conjunction();
        while self.eat("||") {
            let r = self.conjunction();
            e = mk(ExprKind::Or { left: Arc::new(e), right: Arc::new(r) });
            e = self.located(from, e);
        }
        e
    }

    fn conjunction(&mut self) -> Expr<()> {
        let from = self.at;
        let mut e = self.relation();
        while self.eat("&&") {
            let r = self.relation();
            e = mk(ExprKind::And { left: Arc::new(e), right: Arc::new(r) });
            e = self.located(from, e);
        }
        e
    }

    fn relation(&mut self) -> Expr<()> {
        let from = self.at;
        let l = self.sum();
        let e = if self.eat("==") {
            let r = self.sum();
            bin(BinaryOp::Eq, l, r)
        } else if self.eat("!=") {
            let r = self.sum();
            un(UnaryOp::Not, bin(BinaryOp::Eq, l, r))
        } else if self.eat("<=") {
            let r = self.sum();
            bin(BinaryOp::LessEq, l, r)
        } else if self.eat("<") {
            let r = self.sum();
            bin(BinaryOp::Less, l, r)
        } else if self.eat(">=") {
            let r = self.sum();
            un(UnaryOp::Not, bin(BinaryOp::Less, l, r))
        } else if self.eat(">") {
            let r = self.sum();
            un(UnaryOp::Not, bin(BinaryOp::LessEq, l, r))
        } else if self.eat("in") {
            let r = self.sum();
            bin(BinaryOp::In, l, r)
        } else if self.eat("has") {
            let attr = self.word();
            mk(ExprKind::HasAttr { expr: Arc::new(l), attr })
        } else if self.eat("is") {
            let entity_type = self.word();
            mk(ExprKind::Is { expr: Arc::new(l), entity_type })
        } else if self.eat("like") {
            let Tok::Text(s) = self.toks[self.at].0.clone() else { panic!("expected a pattern") };
            self.at += 1;
            mk(ExprKind::Like { expr: Arc::new(l), pattern: Arc::new(pattern(&s)) })
        } else {
            return l;
        };
        self.located(from, e)
    }

    fn sum(&mut self) -> Expr<()> {
        let from = self.at;
        let mut e = self.product();
        loop {
            let op = if self.eat("+") {
                BinaryOp::Add
            } else if self.eat("-") {
                BinaryOp::Sub
            } else {
                return e;
            };
            let r = self.product();
            e = bin(op, e, r);
            e = self.located(from, e);
        }
    }

    fn product(&mut self) -> Expr<()> {
        let from = self.at;
        let mut e = self.unary();
        while self.eat("*") {
            let r = self.unary();
            e = bin(BinaryOp::Mul, e, r);
            e = self.located(from, e);
        }
        e
    }

    fn unary(&mut self) -> Expr<()> {
        let from = self.at;
        if self.eat("!") {
            let e = self.unary();
            let e = un(UnaryOp::Not, e);
            return self.located(from, e);
        }
        if self.eat("-") {
            let e = self.unary();
            let e = un(UnaryOp::Neg, e);
            return self.located(from, e);
        }
        self.member()
    }

    fn args(&mut self, close: &str) -> Vec<Expr<()>> {
        let mut out = Vec::new();
        while !self.eat(close) {
            out.push(self.expr());
            if !self.is(close) {
                self.need(",");
            }
        }
        out
    }

    fn member(&mut self) -> Expr<()> {
        let from = self.at;
        let mut e = self.primary();
        loop {
            if self.eat("[") {
                let Tok::Text(attr) = self.toks[self.at].0.clone() else { panic!("expected a key") };
                self.at += 1;
                self.need("]");
                e = mk(ExprKind::GetAttr { expr: Arc::new(e), attr });
                e = self.located(from, e);
                continue;
            }
            if !self.eat(".") {
                return e;
            }
            let name = self.word();
            e = if self.eat("(") {
                let mut args = self.args(")");
                let op = match name.as_str() {
                    "isEmpty" => {
                        assert!(args.is_empty());
                        e = un(UnaryOp::IsEmpty, e);
                        e = self.located(from, e);
                        continue;
                    }
                    "toDays" => {
                        let args = Arc::new(vec![e]);
                        e = mk(ExprKind::ExtensionFunctionApp { fn_name: name, args });
                        e = self.located(from, e);
                        continue;
                    }
                    "contains" => BinaryOp::Contains,
                    "containsAll" => BinaryOp::ContainsAll,
                    "containsAny" => BinaryOp::ContainsAny,
                    "hasTag" => BinaryOp::HasTag,
                    "getTag" => BinaryOp::GetTag,
                    other => panic!("unknown method {other}"),
                };
                assert_eq!(args.len(), 1);
                bin(op, e, args.pop().unwrap())
            } else {
                mk(ExprKind::GetAttr { expr: Arc::new(e), attr: name })
            };
            e = self.located(from, e);
        }
    }

    fn primary(&mut self) -> Expr<()> {
        let from = self.at;
        let tok = self.toks[from].0.clone();
        self.at += 1;
        let e = match tok {
            Tok::Num(n) => mk(ExprKind::Lit(Prim::Long(n))),
            Tok::Text(s) => mk(ExprKind::Lit(Prim::String(unescape(&s)))),
            Tok::Slot(s) => mk(ExprKind::Slot(if s == "principal" {
                SlotId::Principal
            } else {
                SlotId::Resource
            })),
            Tok::Sym(s) => match s.as_str() {
                "(" => {
                    let e = self.expr();
                    self.need(")");
                    return e;
                }
                "[" => mk(ExprKind::SetLit(Arc::new(self.args("]")))),
                "{" => {
                    let mut fields = Vec::new();
                    while !self.eat("}") {
                        let key = self.word();
                        self.need(":");
                        fields.push((key, self.expr()));
                        if !self.is("}") {
                            self.need(",");
                        }
                    }
                    mk(ExprKind::record(fields).unwrap())
                }
                other => panic!("unexpected `{other}`"),
            },
            Tok::Word(w) => match w.as_str() {
                "true" => mk(ExprKind::Lit(Prim::Bool(true))),
                "false" => mk(ExprKind::Lit(Prim::Bool(false))),
                "principal" => mk(ExprKind::Var(Var::Principal)),
                "action" => mk(ExprKind::Var(Var::Action)),
                "resource" => mk(ExprKind::Var(Var::Resource)),
                "context" => mk(ExprKind::Var(Var::Context)),
                _ => {
                    let mut ty = w;
                    let mut uid = None;
                    while self.eat("::") {
                        if let Tok::Text(s) = self.toks[self.at].0.clone() {
                            self.at += 1;
                            uid = Some(unescape(&s));
                        } else {
                            ty = format!("{ty}::{}", self.word());
                        }
                    }
                    match uid {
                        Some(eid) => mk(ExprKind::Lit(Prim::EntityUid(EntityUid::new(&ty, &eid)))),
                        None => {
                            self.need("(");
                            let args = Arc::new(self.args(")"));
                            mk(ExprKind::ExtensionFunctionApp { fn_name: ty, args })
                        }
                    }
                }
            },
        };
        self.located(from, e)
    }
}

fn expr(text: &str) -> Expr<()> {
    let mut r = Reader { toks: lex(text), at: 0 };
    let e = r.expr();
    assert_eq!(r.at, r.toks.len(), "trailing text in `{text}`");
    e
}

fn quoted(s: &str) -> String {
    format!("\"{}\"", s.replace('\\', "\\\\").replace('"', "\\\""))
}

/// `e` as text, with every operand in brackets.
fn show<D>(e: &Expr<D>) -> String {
    let all = |es: &[Expr<D>]| es.iter().map(show).collect::<Vec<_>>().join(", ");
    match e.expr_kind() {
        ExprKind::Lit(Prim::Bool(b)) => b.to_string(),
        ExprKind::Lit(Prim::Long(n)) => n.to_string(),
        ExprKind::Lit(Prim::String(s)) => quoted(s),
        ExprKind::Lit(Prim::EntityUid(u)) => format!("{}::{}", u.ty, quoted(&u.eid)),
        ExprKind::Var(Var::Principal) => "principal".to_string(),
        ExprKind::Var(Var::Action) => "action".to_string(),
        ExprKind::Var(Var::Resource) => "resource".to_string(),
        ExprKind::Var(Var::Context) => "context".to_string(),
        ExprKind::Slot(SlotId::Principal) => "?principal".to_string(),
        ExprKind::Slot(SlotId::Resource) => "?resource".to_string(),
        ExprKind::Unknown(u) => format!("unknown({})", quoted(u)),
        ExprKind::If { test_expr, then_expr, else_expr } => format!(
            "(if {} then {} else {})",
            show(test_expr),
            show(then_expr),
            show(else_expr)
        ),
        ExprKind::And { left, right } => format!("({} && {})", show(left), show(right)),
        ExprKind::Or { left, right } => format!("({} || {})", show(left), show(right)),
        ExprKind::UnaryApp { op: UnaryOp::Not, arg } => format!("!{}", show(arg)),
        ExprKind::UnaryApp { op: UnaryOp::Neg, arg } => format!("-{}", show(arg)),
        ExprKind::UnaryApp { op: UnaryOp::IsEmpty, arg } => format!("{}.isEmpty()", show(arg)),
        ExprKind::BinaryApp { op, arg1, arg2 } => {
            let (a, b) = (show(arg1), show(arg2));
            match op {
                BinaryOp::Eq => format!("({a} == {b})"),
                BinaryOp::Less => format!("({a} < {b})"),
                BinaryOp::LessEq => format!("({a} <= {b})"),
                BinaryOp::Add => format!("({a} + {b})"),
                BinaryOp::Sub => format!("({a} - {b})"),
                BinaryOp::Mul => format!("({a} * {b})"),
                BinaryOp::In => format!("({a} in {b})"),
                BinaryOp::Contains => format!("{a}.contains({b})"),
                BinaryOp::ContainsAll => format!("{a}.containsAll({b})"),
                BinaryOp::ContainsAny => format!("{a}.containsAny({b})"),
                BinaryOp::GetTag => format!("{a}.getTag({b})"),
                BinaryOp::HasTag => format!("{a}.hasTag({b})"),
            }
        }
        ExprKind::ExtensionFunctionApp { fn_name, args } => format!("{fn_name}({})", all(args)),
        ExprKind::GetAttr { expr, attr } => format!("{}.{attr}", show(expr)),
        ExprKind::HasAttr { expr, attr } => format!("({} has {attr})", show(expr)),
        ExprKind::Like { expr, pattern } => {
            let p: String = pattern
                .iter()
                .map(|x| match x {
                    PatternElem::Wildcard => "*".to_string(),
                    PatternElem::Char('*') => "\\*".to_string(),
                    PatternElem::Char(c) => c.to_string(),
                })
                .collect();
            format!("({} like \"{p}\")", show(expr))
        }
        ExprKind::Is { expr, entity_type } => format!("({} is {entity_type})", show(expr)),
        ExprKind::SetLit(es) => format!("[{}]", all(es)),
        ExprKind::Record(fields) => {
            let fs: Vec<String> =
                fields.iter().map(|(k, v)| format!("{k}: {}", show(v))).collect();
            format!("{{{}}}", fs.join(", "))
        }
    }
}

// ---------------------------------------------------------------------------
// A concrete evaluator, as an oracle

#[derive(Clone, Debug, PartialEq)]
enum Val {
    Bool(bool),
    Long(i64),
    Text(String),
    Uid(String, String),
    SetOf(Vec<Val>),
    Rec(Vec<(String, Val)>),
}

/// An entity of a store.
#[derive(Clone, Debug)]
struct Entity {
    attrs: Vec<(String, Val)>,
    tags: Vec<(String, Val)>,
    parents: Vec<(String, String)>,
}

/// A request and the entities that exist.
struct Store {
    principal: (String, String),
    action: (String, String),
    resource: (String, String),
    entities: Vec<((String, String), Entity)>,
}

fn name(ty: &str, eid: &str) -> (String, String) {
    (ty.to_string(), eid.to_string())
}

impl Store {
    fn get(&self, ty: &str, eid: &str) -> Option<&Entity> {
        self.entities.iter().find(|(k, _)| k.0 == ty && k.1 == eid).map(|(_, e)| e)
    }

    fn is_in(&self, x: &(String, String), y: &(String, String)) -> bool {
        x == y
            || self
                .get(&x.0, &x.1)
                .is_some_and(|e| e.parents.iter().any(|p| self.is_in(p, y)))
    }
}

fn uid(p: &(String, String)) -> Val {
    Val::Uid(p.0.clone(), p.1.clone())
}

fn as_uid(v: &Val) -> Result<(String, String), String> {
    match v {
        Val::Uid(ty, eid) => Ok((ty.clone(), eid.clone())),
        _ => type_error(),
    }
}

fn field(fields: &[(String, Val)], key: &str) -> Option<Val> {
    fields.iter().find(|(k, _)| k == key).map(|(_, v)| v.clone())
}

fn type_error<X>() -> Result<X, String> {
    Err("type error".to_string())
}

fn as_bool(v: Val) -> Result<bool, String> {
    match v {
        Val::Bool(b) => Ok(b),
        _ => type_error(),
    }
}

fn as_long(v: Val) -> Result<i64, String> {
    match v {
        Val::Long(n) => Ok(n),
        _ => type_error(),
    }
}

fn as_set(v: Val) -> Result<Vec<Val>, String> {
    match v {
        Val::SetOf(s) => Ok(s),
        _ => type_error(),
    }
}

fn equal(a: &Val, b: &Val) -> bool {
    match (a, b) {
        (Val::SetOf(x), Val::SetOf(y)) => {
            x.iter().all(|v| y.iter().any(|u| equal(u, v)))
                && y.iter().all(|v| x.iter().any(|u| equal(u, v)))
        }
        (Val::Rec(x), Val::Rec(y)) => {
            x.len() == y.len()
                && x.iter().zip(y).all(|((k, v), (l, u))| k == l && equal(v, u))
        }
        _ => a == b,
    }
}

fn eval(e: &Expr<()>, s: &Store) -> Result<Val, String> {
    let b = |e: &Expr<()>| eval(e, s).and_then(as_bool);
    Ok(match e.expr_kind() {
        ExprKind::Lit(Prim::Bool(b)) => Val::Bool(*b),
        ExprKind::Lit(Prim::Long(n)) => Val::Long(*n),
        ExprKind::Lit(Prim::String(t)) => Val::Text(t.clone()),
        ExprKind::Lit(Prim::EntityUid(u)) => Val::Uid(u.ty.clone(), u.eid.clone()),
        ExprKind::Var(Var::Principal) => uid(&s.principal),
        ExprKind::Var(Var::Resource) => uid(&s.resource),
        ExprKind::Var(Var::Action) => uid(&s.action),
        ExprKind::Var(Var::Context) => Val::Rec(Vec::new()),
        ExprKind::If { test_expr, then_expr, else_expr } => {
            return if b(test_expr)? { eval(then_expr, s) } else { eval(else_expr, s) }
        }
        ExprKind::And { left, right } => Val::Bool(b(left)? && b(right)?),
        ExprKind::Or { left, right } => Val::Bool(b(left)? || b(right)?),
        ExprKind::UnaryApp { op: UnaryOp::Not, arg } => Val::Bool(!b(arg)?),
        ExprKind::UnaryApp { op: UnaryOp::Neg, arg } => Val::Long(
            as_long(eval(arg, s)?)?.checked_neg().ok_or("integer overflow")?,
        ),
        ExprKind::UnaryApp { op: UnaryOp::IsEmpty, arg } => {
            Val::Bool(as_set(eval(arg, s)?)?.is_empty())
        }
        ExprKind::BinaryApp { op, arg1, arg2 } => {
            let (x, y) = (eval(arg1, s)?, eval(arg2, s)?);
            match op {
                BinaryOp::Eq => Val::Bool(equal(&x, &y)),
                BinaryOp::Less => Val::Bool(as_long(x)? < as_long(y)?),
                BinaryOp::LessEq => Val::Bool(as_long(x)? <= as_long(y)?),
                BinaryOp::Add => Val::Long(
                    as_long(x)?.checked_add(as_long(y)?).ok_or("integer overflow")?,
                ),
                BinaryOp::Sub => Val::Long(
                    as_long(x)?.checked_sub(as_long(y)?).ok_or("integer overflow")?,
                ),
                BinaryOp::Mul => Val::Long(
                    as_long(x)?.checked_mul(as_long(y)?).ok_or("integer overflow")?,
                ),
                BinaryOp::Contains => Val::Bool(as_set(x)?.iter().any(|v| equal(v, &y))),
                BinaryOp::ContainsAll => {
                    let (x, y) = (as_set(x)?, as_set(y)?);
                    Val::Bool(y.iter().all(|v| x.iter().any(|u| equal(u, v))))
                }
                BinaryOp::ContainsAny => {
                    let (x, y) = (as_set(x)?, as_set(y)?);
                    Val::Bool(y.iter().any(|v| x.iter().any(|u| equal(u, v))))
                }
                BinaryOp::In => {
                    let x = as_uid(&x)?;
                    let ys = match y {
                        Val::SetOf(ys) => ys,
                        y => vec![y],
                    };
                    let ys = ys.iter().map(as_uid).collect::<Result<Vec<_>, _>>()?;
                    Val::Bool(ys.iter().any(|y| s.is_in(&x, y)))
                }
                BinaryOp::GetTag | BinaryOp::HasTag => {
                    let (ty, eid) = as_uid(&x)?;
                    let Val::Text(key) = y else { return type_error() };
                    let found = s.get(&ty, &eid).and_then(|e| field(&e.tags, &key));
                    match op {
                        BinaryOp::HasTag => Val::Bool(found.is_some()),
                        _ => found.ok_or(format!("does not have the tag `{key}`"))?,
                    }
                }
            }
        }
        ExprKind::ExtensionFunctionApp { fn_name, args } => match fn_name.as_str() {
            "iferror" => match eval(&args[0], s) {
                Err(_) => Val::Bool(b(&args[1])?),
                Ok(v) => Val::Bool(as_bool(v)?),
            },
            "toDays" => eval(&args[0], s)?,
            "duration" => match eval(&args[0], s)? {
                Val::Text(t) => Val::Long(t.trim_end_matches('d').parse().unwrap()),
                _ => return type_error(),
            },
            _ => return Err("an error".to_string()),
        },
        ExprKind::GetAttr { expr, attr } => {
            let fields = match eval(expr, s)? {
                Val::Rec(fields) => fields,
                Val::Uid(ty, eid) => s.get(&ty, &eid).ok_or("no such entity")?.attrs.clone(),
                _ => return type_error(),
            };
            field(&fields, attr).ok_or(format!("does not have the attribute `{attr}`"))?
        }
        ExprKind::HasAttr { expr, attr } => match eval(expr, s)? {
            Val::Rec(fields) => Val::Bool(field(&fields, attr).is_some()),
            Val::Uid(ty, eid) => {
                Val::Bool(s.get(&ty, &eid).is_some_and(|e| field(&e.attrs, attr).is_some()))
            }
            _ => return type_error(),
        },
        ExprKind::Like { expr, pattern } => match eval(expr, s)? {
            Val::Text(t) => Val::Bool(wildcard_match(pattern, &t)),
            _ => return type_error(),
        },
        ExprKind::Is { expr, entity_type } => match eval(expr, s)? {
            Val::Uid(ty, _) => Val::Bool(ty == *entity_type),
            _ => return type_error(),
        },
        ExprKind::SetLit(es) => {
            Val::SetOf(es.iter().map(|x| eval(x, s)).collect::<Result<Vec<_>, _>>()?)
        }
        ExprKind::Record(fields) => Val::Rec(
            fields
                .iter()
                .map(|(k, v)| Ok((k.clone(), eval(v, s)?)))
                .collect::<Result<Vec<_>, String>>()?,
        ),
        ExprKind::Slot(_) | ExprKind::Unknown(_) => return type_error(),
    })
}

fn wildcard_match(pattern: &[PatternElem], text: &str) -> bool {
    let chars: Vec<char> = text.chars().collect();
    matches_from(pattern, &chars)
}

fn matches_from(p: &[PatternElem], t: &[char]) -> bool {
    match p.first() {
        None => t.is_empty(),
        Some(PatternElem::Char(c)) => t.first() == Some(c) && matches_from(&p[1..], &t[1..]),
        Some(PatternElem::Wildcard) => (0..=t.len()).any(|i| matches_from(&p[1..], &t[i..])),
    }
}

/// One user, one document; both exist.
fn store(active: bool, name_attr: &str, nick: Option<&str>, age: i64) -> Store {
    let mut user = vec![
        ("name".to_string(), Val::Text(name_attr.to_string())),
        ("active".to_string(), Val::Bool(active)),
        ("age".to_string(), Val::Long(age)),
    ];
    if let Some(n) = nick {
        user.push(("nick".to_string(), Val::Text(n.to_string())));
    }
    let doc = vec![
        ("protected".to_string(), Val::Bool(true)),
        ("level".to_string(), Val::Long(1)),
        ("owner".to_string(), Val::Uid("User".to_string(), "u".to_string())),
    ];
    let plain = |attrs| Entity { attrs, tags: Vec::new(), parents: Vec::new() };
    Store {
        principal: name("User", "u"),
        action: name("Action", "view"),
        resource: name("Document", "d"),
        entities: vec![(name("User", "u"), plain(user)), (name("Document", "d"), plain(doc))],
    }
}

// ---------------------------------------------------------------------------
// What the tables are written over

/// The atoms the tables are written over. `a`, `b`, `c` cannot error; `e`
/// can (integer overflow).
const A: &str = "principal.active";
const B: &str = r#"principal.name == "x""#;
const C: &str = "resource.protected";
const ERR: &str = "principal.age + 1 == 19";

/// Substitutes the atom names of a table entry: a standalone `a`, `b`, `c`
/// or `e` becomes the parenthesised atom.
fn t(template: &str) -> Expr<()> {
    let chars: Vec<char> = template.chars().collect();
    let is_word = |c: &char| c.is_alphanumeric() || *c == '_';
    let mut out = String::new();
    for (i, ch) in chars.iter().enumerate() {
        let standalone = !chars.get(i.wrapping_sub(1)).is_some_and(is_word)
            && !chars.get(i + 1).is_some_and(is_word);
        let atom = match ch {
            'a' if standalone => Some(A),
            'b' if standalone => Some(B),
            'c' if standalone => Some(C),
            'e' if standalone => Some(ERR),
            _ => None,
        };
        match atom {
            Some(atom) => out.push_str(&format!("({atom})")),
            None => out.push(*ch),
        }
    }
    expr(&out)
}

fn normalize(text: &str) -> Expr<()> {
    t(&text.split_whitespace().collect::<Vec<_>>().join(" "))
}

fn view() -> RequestEnv {
    RequestEnv {
        principal: "User".to_string(),
        action: EntityUid::new("Action", "view"),
        resource: "Document".to_string(),
    }
}

fn schema() -> Schema {
    Schema::new("schema".to_string(), vec![view()], vec![EntityUid::new("Action", "view")])
}

fn untyped(e: &Expr<()>) -> Expr<Option<Type>> {
    cedar_analysis::expr_util::map_data(e, &|_: &()| None)
}

/// A typechecker that accepts everything.
fn accepts(p: &Policy, _env: &RequestEnv) -> Checked {
    Checked { errs: vec![], check: PolicyCheck::Success(untyped(&p.condition())) }
}

/// A typechecker that rejects everything.
fn rejects(_p: &Policy, _env: &RequestEnv) -> Checked {
    Checked { errs: vec![], check: PolicyCheck::Fail(vec!["not well typed".to_string()]) }
}

/// A validator that finds nothing.
fn valid(_set: &PolicySet) -> Vec<String> {
    Vec::new()
}

// ---------------------------------------------------------------------------
// Three-valued truth tables

/// The atoms of `e` (its non-structure nodes), in order of first occurrence.
fn atoms_of(e: &Expr<()>, out: &mut Vec<Expr<()>>) {
    match e.expr_kind() {
        ExprKind::Lit(Prim::Bool(_)) => {}
        ExprKind::UnaryApp { op: UnaryOp::Not, arg } => atoms_of(arg, out),
        ExprKind::And { left, right } | ExprKind::Or { left, right } => {
            atoms_of(left, out);
            atoms_of(right, out);
        }
        ExprKind::If { test_expr, then_expr, else_expr } => {
            atoms_of(test_expr, out);
            atoms_of(then_expr, out);
            atoms_of(else_expr, out);
        }
        _ => {
            if !out.contains(e) {
                out.push(e.dup());
            }
        }
    }
}

/// Every assignment of `outcomes` to `n` atoms.
fn assignments(n: usize, outcomes: &[EvaluationOutcome]) -> Vec<Vec<EvaluationOutcome>> {
    let mut all = vec![Vec::new()];
    for _ in 0..n {
        let mut next = Vec::new();
        for partial in &all {
            for o in outcomes {
                let mut longer: Vec<EvaluationOutcome> = partial.clone();
                longer.push(*o);
                next.push(longer);
            }
        }
        all = next;
    }
    all
}

fn interpret_under(
    e: &Expr<()>,
    atoms: &[Expr<()>],
    assignment: &[EvaluationOutcome],
) -> EvaluationOutcome {
    interpret(e, &|atom: &Expr<()>| {
        match atoms.iter().position(|a| a == atom) {
            Some(i) => assignment[i],
            None => panic!("unassigned atom `{}`", show(atom)),
        }
    })
}

/// Asserts that `input` and `rewritten` agree on every assignment of
/// `outcomes` to the atoms of `input`.
fn assert_truth_table(input: &Expr<()>, rewritten: &Expr<()>, outcomes: &[EvaluationOutcome]) {
    let mut atoms = Vec::new();
    atoms_of(input, &mut atoms);
    for assignment in assignments(atoms.len(), outcomes) {
        assert_eq!(
            interpret_under(input, &atoms, &assignment),
            interpret_under(rewritten, &atoms, &assignment),
            "`{}` and `{}` differ under {assignment:?}",
            show(input),
            show(rewritten)
        );
    }
}

fn is_atom(e: &Expr<()>) -> bool {
    !matches!(
        e.expr_kind(),
        ExprKind::Lit(Prim::Bool(_))
            | ExprKind::And { .. }
            | ExprKind::Or { .. }
            | ExprKind::If { .. }
            | ExprKind::UnaryApp { op: UnaryOp::Not, .. }
    )
}

fn is_literal(e: &Expr<()>) -> bool {
    match e.expr_kind() {
        ExprKind::UnaryApp { op: UnaryOp::Not, arg } => is_atom(arg),
        _ => is_atom(e),
    }
}

fn is_cube(e: &Expr<()>) -> bool {
    match e.expr_kind() {
        ExprKind::Lit(Prim::Bool(_)) => true,
        ExprKind::And { left, right } => {
            is_cube_prefix(left)
                && (is_literal(right)
                    || matches!(right.expr_kind(), ExprKind::Lit(Prim::Bool(false))))
        }
        _ => is_literal(e),
    }
}

fn is_cube_prefix(e: &Expr<()>) -> bool {
    match e.expr_kind() {
        ExprKind::And { left, right } => is_cube_prefix(left) && is_literal(right),
        _ => is_literal(e),
    }
}

/// Whether `e` is an `||` chain of `&&` chains of literals (an atom, `!atom`,
/// or `false` as the last conjunct).
fn is_dnf(e: &Expr<()>) -> bool {
    match e.expr_kind() {
        ExprKind::Or { left, right } => is_dnf(left) && is_cube(right),
        _ => is_cube(e),
    }
}

// ---------------------------------------------------------------------------
// Rule tables

/// Converts `input`, checks the result is structurally `expected`, and that it
/// agrees with the input on every three-valued assignment of the atoms.
fn assert_dnf(input: &Expr<()>, expected: &Expr<()>) -> Dnf<()> {
    let dnf = Dnf::of_expr(input).unwrap();
    let got = dnf.to_expr();
    assert!(
        got == *expected,
        "expected DNF `{}` for `{}`, got `{}`",
        show(expected),
        show(input),
        show(&got)
    );
    assert!(is_dnf(&got), "`{}` is not in normal form", show(&got));
    assert_truth_table(input, &got, &[Tr, Fa, Er]);
    dnf
}

/// The hand-derived rewrite table: (input, DNF).
fn rule_table() -> Vec<(&'static str, &'static str)> {
    vec![
        // the motivating rewrite: `b` is only reached when `a` is false
        ("(a || b) && c", "(a && c) || (!a && b && c)"),
        // right distribution carries the same guard: `c` only when `b` is false
        ("a && (b || c)", "(a && b) || (a && !b && c)"),
        // De Morgan, three-valued: `!b` only after `a` was true
        ("!(a && b)", "(a && !b) || !a"),
        ("!(a || b)", "!a && !b"),
        ("if a then b else c", "(a && b) || (!a && c)"),
        ("!!a", "a"),
        ("a && true", "a"),
        ("a || false", "a"),
        ("true && a", "a"),
        ("false || a", "a"),
        // `true` grafted under the `!a` edge
        ("a || true", "a || !a"),
        ("true", "true"),
        ("false", "false"),
        // never true, but `a` may error: the cube is kept to reproduce that
        ("a && false", "a && false"),
        ("false && a", "false"),
        // a repeated atom is determined by the prefix
        ("a || a", "a"),
        ("a && (b && a)", "a && b"),
        ("(a && b) || (a && !a)", "a && b"),
        ("a || (!a && b)", "a || (!a && b)"),
        // the erroring atom is on a true cube: no extra cube needed
        ("(e || b) && c", "(e && c) || (!e && b && c)"),
        // nested structure
        (
            "(a || b) && (c || e)",
            "(a && c) || (a && !c && e) || (!a && b && c) || (!a && b && !c && e)",
        ),
        (
            "if (a && b) then c else e",
            "(a && b && c) || (a && !b && e) || (!a && e)",
        ),
    ]
}

#[test]
fn rule_tables() {
    for (input, expected) in rule_table() {
        assert_dnf(&t(input), &t(expected));
    }
}

#[test]
fn comparison_desugaring_is_a_negated_literal() {
    // `x > 1` reads as `!(x <= 1)`, so it is the negation of the atom `x <= 1`.
    let dnf = assert_dnf(&expr("principal.age > 1"), &expr("!(principal.age <= 1)"));
    assert_eq!(dnf.cubes().len(), 1);
    let cube = &dnf.cubes()[0];
    assert_eq!(cube.literals().len(), 1);
    let lit = &cube.literals()[0];
    assert!(lit.negated());
    assert_eq!(**lit.atom(), expr("principal.age <= 1"));
    assert_eq!(lit.to_expr(), expr("!(principal.age <= 1)"));
}

#[test]
fn never_true_cubes_are_only_kept_for_errors() {
    // With no atom able to error, no never-true cube survives, and the
    // result agrees with the input wherever no atom errors.
    for (input, _) in rule_table() {
        let input = t(input);
        let dnf = Dnf::of(&input, &|_: &Expr<()>| false, DEFAULT_MAX_CUBES).unwrap();
        assert!(
            dnf.cubes().iter().all(|c| !c.is_never_true()),
            "never-true cube in `{}` for `{}`",
            show(&dnf.to_expr()),
            show(&input)
        );
        assert_eq!(dnf.true_cubes().len(), dnf.cubes().len());
        assert_truth_table(&input, &dnf.to_expr(), &[Tr, Fa]);
    }
    // Only cubes with an uncovered erroring node are kept: `e` is evaluated
    // both after `a` and after `!a`, and those are distinct nodes of the tree.
    let dnf = Dnf::of(
        &t("(a && false) || (e && false)"),
        &|atom: &Expr<()>| *atom == t("e"),
        DEFAULT_MAX_CUBES,
    )
    .unwrap();
    assert_eq!(dnf.to_expr(), t("(a && e && false) || (!a && e && false)"));
    assert!(dnf.cubes().iter().all(|c| c.is_never_true()));
    assert_eq!(dnf.cubes()[0].to_expr(), t("a && e && false"));
}

// ---------------------------------------------------------------------------
// Small expression shapes

/// Every boolean-structure expression with at most `size` nodes over `leaves`,
/// by size.
fn shapes(size: usize, leaves: &[Expr<()>]) -> Vec<Vec<Expr<()>>> {
    let mut by_size: Vec<Vec<Expr<()>>> = vec![vec![], leaves.iter().map(|l| l.dup()).collect()];
    for n in 2..=size {
        let mut out = Vec::new();
        for x in &by_size[n - 1] {
            out.push(un(UnaryOp::Not, x.dup()));
        }
        for i in 1..n - 1 {
            let j = n - 1 - i;
            for l in &by_size[i] {
                for r in &by_size[j] {
                    out.push(mk(ExprKind::And {
                        left: Arc::new(l.dup()),
                        right: Arc::new(r.dup()),
                    }));
                    out.push(mk(ExprKind::Or {
                        left: Arc::new(l.dup()),
                        right: Arc::new(r.dup()),
                    }));
                }
            }
        }
        for i in 1..n {
            for j in 1..n - i {
                let k = n - 1 - i - j;
                if k == 0 {
                    continue;
                }
                for c in &by_size[i] {
                    for a in &by_size[j] {
                        for b in &by_size[k] {
                            out.push(mk(ExprKind::If {
                                test_expr: Arc::new(c.dup()),
                                then_expr: Arc::new(a.dup()),
                                else_expr: Arc::new(b.dup()),
                            }));
                        }
                    }
                }
            }
        }
        by_size.push(out);
    }
    by_size
}

#[test]
fn exhaustive_small_shapes() {
    let leaves = [t("a"), t("b"), t("c"), t("true"), t("false")];
    let by_size = shapes(6, &leaves);
    let mut checked: usize = 0;
    for exprs in &by_size {
        for e in exprs {
            let dnf = Dnf::of_expr(e).unwrap();
            let rewritten = dnf.to_expr();
            assert!(
                is_dnf(&rewritten),
                "`{}` (from `{}`) is not in normal form",
                show(&rewritten),
                show(e)
            );
            assert_truth_table(e, &rewritten, &[Tr, Fa, Er]);
            let error_free = Dnf::of(e, &|_: &Expr<()>| false, DEFAULT_MAX_CUBES).unwrap();
            assert!(error_free.cubes().iter().all(|c| !c.is_never_true()));
            assert_truth_table(e, &error_free.to_expr(), &[Tr, Fa]);
            checked += 1;
        }
    }
    assert!(checked > 10_000, "only {checked} shapes checked");
}

// ---------------------------------------------------------------------------
// Limits

fn clauses(n: usize) -> Expr<()> {
    let clause = |i: usize| format!("(principal.age == {i} || resource.level == {i})");
    expr(&(0..n).map(clause).collect::<Vec<_>>().join(" && "))
}

fn is_too_large(e: &DnfError, bound: usize, counted: &str) -> bool {
    match e {
        DnfError::TooLarge { limit, what } => *limit == bound && *what == counted,
        _ => false,
    }
}

/// The budget counts the paths, those of a single atom or literal too.
#[test]
fn the_budget_counts_every_path() {
    let always = |_: &Expr<()>| true;
    for (text, paths) in [
        ("a", 2),
        ("!a", 2),
        ("!!a", 2),
        ("true", 1),
        ("!false", 1),
        ("a && b", 3),
        ("a || b", 3),
        ("if a then b else c", 4),
        ("true && a", 2),
        ("false && (a && b)", 1),
    ] {
        let input = t(text);
        assert!(Dnf::of(&input, &always, paths).is_ok(), "{text}");
        let err = Dnf::of(&input, &always, paths - 1).unwrap_err();
        assert!(is_too_large(&err, paths - 1, "cubes"), "{text}: {err:?}");
    }
}

/// A never-true cube all of whose nodes other cubes visit is left out.
#[test]
fn no_never_true_cube_is_redundant() {
    let dnf = Dnf::of_expr(&t("if a then false else (b && false)")).unwrap();
    assert_eq!(dnf.to_expr(), t("!a && b && false"));
    let dnf = Dnf::of_expr(&t("a && false")).unwrap();
    assert_eq!(dnf.to_expr(), t("a && false"));
    let dnf = Dnf::of_expr(&t("if a then (b && false) else (c && false)")).unwrap();
    assert_eq!(dnf.to_expr(), t("(a && b && false) || (!a && c && false)"));
    // on every small shape, each never-true cube has a node of its own
    let node = |c: &Cube<()>, k: usize| -> Vec<(String, bool)> {
        let lits = c.literals();
        let mut n: Vec<(String, bool)> =
            lits[..k].iter().map(|l| (show(l.atom()), l.negated())).collect();
        n.push((show(lits[k].atom()), false));
        n
    };
    let leaves = [t("a"), t("b"), t("true"), t("false")];
    for exprs in &shapes(6, &leaves) {
        for e in exprs {
            let dnf = Dnf::of_expr(e).unwrap();
            let cubes = dnf.cubes();
            for (i, c) in cubes.iter().enumerate().filter(|(_, c)| c.is_never_true()) {
                let own = (0..c.literals().len()).any(|k| {
                    cubes.iter().enumerate().all(|(j, d)| {
                        j == i || (0..d.literals().len()).all(|m| node(d, m) != node(c, k))
                    })
                });
                assert!(own, "`{}` in the DNF of `{}`", show(&c.to_expr()), show(e));
            }
        }
    }
}

/// An atom behind the one that decides is not asked for.
#[test]
fn only_the_atoms_that_are_reached_are_asked() {
    let outcome = |text: &str, x: EvaluationOutcome, y: EvaluationOutcome| {
        let asked = RefCell::new(Vec::new());
        let r = interpret(&t(text), &|atom: &Expr<()>| {
            let is_first = *atom == t("a");
            asked.borrow_mut().push(if is_first { "a" } else { "b" });
            if is_first {
                x
            } else {
                y
            }
        });
        (r, asked.into_inner())
    };
    assert_eq!(outcome("a && b", Fa, Er), (Fa, vec!["a"]));
    assert_eq!(outcome("a || b", Er, Tr), (Er, vec!["a"]));
    assert_eq!(outcome("iferror(a, b)", Fa, Er), (Fa, vec!["a"]));
    assert_eq!(outcome("iferror(a, b)", Er, Tr), (Tr, vec!["a", "b"]));
    assert_eq!(outcome("if a then b else true", Fa, Er), (Tr, vec!["a"]));
    assert_eq!(outcome("!a && b", Fa, Tr), (Tr, vec!["a", "b"]));
}

#[test]
fn cube_budget() {
    let err = Dnf::of_expr(&clauses(13)).unwrap_err();
    assert!(is_too_large(&err, DEFAULT_MAX_CUBES, "cubes"), "{err:?}");
    let dnf = Dnf::of(&clauses(3), &|_: &Expr<()>| true, usize::MAX).unwrap();
    assert_eq!(dnf.true_cubes().len(), 8);
    assert_truth_table(&clauses(3), &dnf.to_expr(), &[Tr, Fa, Er]);
}

#[test]
fn nesting_is_limited() {
    let mut e = t("a");
    for _ in 0..20_000 {
        e = un(UnaryOp::Not, e);
    }
    assert!(matches!(Dnf::of_expr(&e), Err(DnfError::RecursionLimit)));
    assert!(matches!(
        split_atoms(&e, DEFAULT_MAX_SPLIT_NODES),
        Err(DnfError::RecursionLimit)
    ));
    // taken apart from the outside in, so that dropping it does not recurse
    while let ExprKind::UnaryApp { arg, .. } = &e.kind {
        let inner = arg.dup();
        e = inner;
    }
}

// ---------------------------------------------------------------------------
// Splitting atoms

fn is_offender(e: &Expr<()>) -> bool {
    matches!(
        e.expr_kind(),
        ExprKind::And { .. }
            | ExprKind::Or { .. }
            | ExprKind::If { .. }
            | ExprKind::UnaryApp { op: UnaryOp::Not, .. }
    )
}

/// Whether no node of `e` below the root is an `&&`/`||`/`!`/`if`, outside
/// `iferror(..)` calls.
fn clean_inside(e: &Expr<()>) -> bool {
    if is_iferror_call(e) {
        return true;
    }
    (0..e.kid_count()).all(|i| !is_offender(e.kid(i)) && clean_inside(e.kid(i)))
}

/// Whether `e` is a boolean structure over clean atoms: no atom contains any
/// `&&`/`||`/`!`/`if` node.
fn atoms_are_clean(e: &Expr<()>) -> bool {
    match e.expr_kind() {
        ExprKind::Lit(Prim::Bool(_)) => true,
        ExprKind::UnaryApp { op: UnaryOp::Not, arg } => atoms_are_clean(arg),
        ExprKind::And { left, right } | ExprKind::Or { left, right } => {
            atoms_are_clean(left) && atoms_are_clean(right)
        }
        ExprKind::If { test_expr, then_expr, else_expr } => {
            atoms_are_clean(test_expr) && atoms_are_clean(then_expr) && atoms_are_clean(else_expr)
        }
        _ => clean_inside(e),
    }
}

/// Splits `input`, asserts the exact result, that its atoms are clean, and
/// that its DNF is `expected_dnf`.
fn assert_split(input: &Expr<()>, expected: &Expr<()>, expected_dnf: &Expr<()>) {
    let split = split_atoms(input, DEFAULT_MAX_SPLIT_NODES).unwrap();
    assert!(
        split == *expected,
        "expected split `{}` for `{}`, got `{}`",
        show(expected),
        show(input),
        show(&split)
    );
    assert!(atoms_are_clean(&split), "`{}` has unclean atoms", show(&split));
    let dnf = Dnf::of_expr(&split).unwrap().to_expr();
    assert!(
        dnf == *expected_dnf,
        "expected DNF `{}` for split `{}`, got `{}`",
        show(expected_dnf),
        show(&split),
        show(&dnf)
    );
    assert!(atoms_are_clean(&dnf));
}

/// The split table: (input, split form, DNF of the split form). Atom names as
/// in `t()`; the examples use error-free atoms so the DNFs stay small.
fn split_table() -> Vec<(&'static str, &'static str, &'static str)> {
    vec![
        // a worked example
        (
            r#"a && (if b && c then Document::"d1" else Document::"d2").level == 1"#,
            r#"a && (if b && c then Document::"d1".level == 1 else Document::"d2".level == 1)"#,
            r#"(a && b && c && Document::"d1".level == 1)
               || (a && b && !c && Document::"d2".level == 1)
               || (a && !b && Document::"d2".level == 1)"#,
        ),
        // an `if` under `==`; both branches fold (`1 == 3`, `2 == 3` are literal equalities)
        (
            "(if c then 1 else 2) == 3",
            "if c then false else false",
            "c && false",
        ),
        // boolean structure under `==`, other operand left alone
        (
            "(a && c) == principal.active",
            "if a && c then true == principal.active else false == principal.active",
            "(a && c && true == principal.active)
             || (a && !c && false == principal.active)
             || (!a && false == principal.active)",
        ),
        // `x == y ⇒ (x && y) || (!x && !y)`, derived from hoisting + folding
        (
            "(a && c) == (b || principal.age == 1)",
            "if a && c then (if b || principal.age == 1 then true else false)
             else (if b || principal.age == 1 then false else true)",
            "(a && c && b) || (a && c && !b && principal.age == 1)
             || (a && !c && !b && !(principal.age == 1))
             || (!a && !b && !(principal.age == 1))",
        ),
        (
            "!a == b",
            "if !a then true == b else false == b",
            "(a && false == b) || (!a && true == b)",
        ),
        // an `if` operand of `==` is hoisted like any other (it may be of
        // any type); the equalities survive
        (
            "(if c then a else b) == principal.active",
            "if c then a == principal.active else b == principal.active",
            "(c && a == principal.active) || (!c && b == principal.active)",
        ),
        // deeper structure inside an `==` operand is hoisted too
        (
            "[a && c].contains(b) == principal.active",
            "if a && c then [true].contains(b) == principal.active
             else [false].contains(b) == principal.active",
            "(a && c && [true].contains(b) == principal.active)
             || (a && !c && [false].contains(b) == principal.active)
             || (!a && [false].contains(b) == principal.active)",
        ),
        // boolean structure inside a set literal — the case `==` alone misses
        (
            "[a && c].contains(b)",
            "if a && c then [true].contains(b) else [false].contains(b)",
            "(a && c && [true].contains(b)) || (a && !c && [false].contains(b))
             || (!a && [false].contains(b))",
        ),
        // a hoisted test that is itself an `if`, staying at structure position
        (
            "(if (if c then a else false) then 1 else 2) == 1",
            "if (if c then a else false) then true else false",
            "c && a",
        ),
        // clean atoms come back unchanged
        (
            "a && (b || !(principal.age == 1))",
            "a && (b || !(principal.age == 1))",
            "(a && b) || (a && !b && !(principal.age == 1))",
        ),
        // a left sibling: `principal.age` is evaluated before the hoisted
        // test, so its error must surface first — the guard `age == age`
        (
            "principal.age == (if c then 1 else 2)",
            "if principal.age == principal.age
             then (if c then principal.age == 1 else principal.age == 2) else false",
            "(principal.age == principal.age && c && principal.age == 1)
             || (principal.age == principal.age && !c && principal.age == 2)",
        ),
        // left siblings at two levels, outer first: `level`, then `age`
        (
            "resource.level < principal.age + (if c then 1 else 2)",
            "if resource.level == resource.level && principal.age == principal.age
             then (if c then resource.level < principal.age + 1
                   else resource.level < principal.age + 2) else false",
            "(resource.level == resource.level && principal.age == principal.age && c
              && resource.level < principal.age + 1)
             || (resource.level == resource.level && principal.age == principal.age && !c
              && resource.level < principal.age + 2)",
        ),
        // literal and variable siblings never err and get no guard
        (
            "[1, principal.age, if c then 2 else 3].contains(resource.level)",
            "if principal.age == principal.age
             then (if c then [1, principal.age, 2].contains(resource.level)
                   else [1, principal.age, 3].contains(resource.level)) else false",
            "(principal.age == principal.age && c && [1, principal.age, 2].contains(resource.level))
             || (principal.age == principal.age && !c
              && [1, principal.age, 3].contains(resource.level))",
        ),
        (
            "[principal, resource.owner, if c then principal else resource.owner].contains(principal)",
            "if resource.owner == resource.owner
             then (if c then [principal, resource.owner, principal].contains(principal)
                   else [principal, resource.owner, resource.owner].contains(principal)) else false",
            "(resource.owner == resource.owner && c
              && [principal, resource.owner, principal].contains(principal))
             || (resource.owner == resource.owner && !c
              && [principal, resource.owner, resource.owner].contains(principal))",
        ),
        // a left sibling that never errs by itself (`==`) contributes its
        // operands' guards, not its own
        (
            "(principal.age == 1) == (if a && b then true else false)",
            "if principal.age == principal.age
             then (if a && b then (principal.age == 1) == true else (principal.age == 1) == false)
             else false",
            "(principal.age == principal.age && a && b && (principal.age == 1) == true)
             || (principal.age == principal.age && a && !b && (principal.age == 1) == false)
             || (principal.age == principal.age && !a && (principal.age == 1) == false)",
        ),
        // an `if` operand on the right: the left operand is guarded
        (
            "resource.protected == (if a && b then true else false)",
            "if resource.protected == resource.protected
             then (if a && b then resource.protected == true else resource.protected == false)
             else false",
            "(resource.protected == resource.protected && a && b && resource.protected == true)
             || (resource.protected == resource.protected && a && !b
              && resource.protected == false)
             || (resource.protected == resource.protected && !a && resource.protected == false)",
        ),
        // an opaque `iferror` call as the left sibling is guarded like any atom
        (
            "iferror(e, false) == (if a && b then true else false)",
            "if iferror(e, false) == iferror(e, false)
             then (if a && b then iferror(e, false) == true else iferror(e, false) == false)
             else false",
            "(iferror(e, false) == iferror(e, false) && a && b && iferror(e, false) == true)
             || (iferror(e, false) == iferror(e, false) && a && !b
              && iferror(e, false) == false)
             || (iferror(e, false) == iferror(e, false) && !a && iferror(e, false) == false)",
        ),
        // the split of a substituted atom re-derives the guard; the DNF's
        // literal dedup keeps it once per cube
        (
            "principal.age == (if c then (if a then 1 else 2) else 3)",
            "if principal.age == principal.age
             then (if c then (if a then principal.age == 1 else principal.age == 2)
                   else principal.age == 3)
             else false",
            "(principal.age == principal.age && c && a && principal.age == 1)
             || (principal.age == principal.age && c && !a && principal.age == 2)
             || (principal.age == principal.age && !c && principal.age == 3)",
        ),
        // siblings that cannot err get no guard: a set literal of literals …
        (
            r#"["admin", "root"].contains(if c then principal.name else "guest")"#,
            r#"if c then ["admin", "root"].contains(principal.name)
               else ["admin", "root"].contains("guest")"#,
            r#"(c && ["admin", "root"].contains(principal.name))
               || (!c && ["admin", "root"].contains("guest"))"#,
        ),
        // … and a literal equality an earlier substitution produced (`1 == 1`)
        (
            "((if c then 1 else 2) == 1) == (if b || a then true else false)",
            "if c then (if b || a then true else false) else (if b || a then false else true)",
            "(c && b) || (c && !b && a) || (!c && !b && !a)",
        ),
        // a set or record literal sibling never errs by itself: its elements
        // are the guards
        (
            "[principal.age, 7].containsAll(if c then [1] else [2])",
            "if principal.age == principal.age
             then (if c then [principal.age, 7].containsAll([1])
                   else [principal.age, 7].containsAll([2])) else false",
            "(principal.age == principal.age && c && [principal.age, 7].containsAll([1]))
             || (principal.age == principal.age && !c && [principal.age, 7].containsAll([2]))",
        ),
        // a guard established by the left operand of `&&` (or the test of an
        // `if`) is known inside the right operand (the then branch)
        (
            "principal.age == principal.age && principal.age == (if c then 1 else 2)",
            "principal.age == principal.age
             && (if c then principal.age == 1 else principal.age == 2)",
            "(principal.age == principal.age && c && principal.age == 1)
             || (principal.age == principal.age && !c && principal.age == 2)",
        ),
        (
            "if principal.age == principal.age then principal.age == (if c then 1 else 2) else b",
            "if principal.age == principal.age
             then (if c then principal.age == 1 else principal.age == 2) else b",
            "(principal.age == principal.age && c && principal.age == 1)
             || (principal.age == principal.age && !c && principal.age == 2)
             || (!(principal.age == principal.age) && b)",
        ),
    ]
}

#[test]
fn split_tables() {
    for (input, split, dnf) in split_table() {
        assert_split(&normalize(input), &normalize(split), &normalize(dnf));
    }
}

#[test]
fn split_budget() {
    let (input, _, _) = *split_table().first().unwrap();
    let input = normalize(input);
    let err = split_atoms(&input, 10).unwrap_err();
    assert!(is_too_large(&err, 10, "atom nodes"), "{err:?}");
    split_atoms(&input, DEFAULT_MAX_SPLIT_NODES).unwrap();
}

#[test]
fn split_generated_sweep() {
    // Embed every small boolean structure S in two atom templates and check
    // the split against the structural reference semantics of the template:
    //   (if S then 1 else 2) == 1        ~ interpret(S)   (1 == 1 / 2 == 1 fold)
    //   principal.age == (if S then 1 else 2)
    //                                    ~ S=T gives atom `age == 1`, S=F `age == 2`
    let leaves = [t("a"), t("c"), t("true"), t("false")];
    let by_size = shapes(5, &leaves);
    let eq1 = expr("principal.age == 1");
    let eq2 = expr("principal.age == 2");
    let guard = expr("principal.age == principal.age");
    // `principal.age` is a left sibling of the `if` in `t2`, so its
    // split is guarded by `age == age`, an atom that is never false.
    let atoms = vec![t("a"), t("c"), eq1, eq2, guard];
    let all = assignments(atoms.len(), &[Tr, Fa, Er]);
    let mut checked: usize = 0;
    for exprs in &by_size {
        for s in exprs {
            let ite = || {
                mk(ExprKind::If {
                    test_expr: Arc::new(s.dup()),
                    then_expr: Arc::new(expr("1")),
                    else_expr: Arc::new(expr("2")),
                })
            };
            let t1 = bin(BinaryOp::Eq, ite(), expr("1"));
            let t2 = bin(BinaryOp::Eq, expr("principal.age"), ite());
            let split1 = split_atoms(&t1, DEFAULT_MAX_SPLIT_NODES).unwrap();
            let split2 = split_atoms(&t2, DEFAULT_MAX_SPLIT_NODES).unwrap();
            assert!(atoms_are_clean(&split1), "unclean `{}`", show(&split1));
            assert!(atoms_are_clean(&split2), "unclean `{}`", show(&split2));
            for assignment in &all {
                if assignment[4] == Fa {
                    continue;
                }
                let outcome = interpret_under(s, &atoms, assignment);
                // (if S then 1 else 2) == 1 evaluates like S itself.
                assert_eq!(interpret_under(&split1, &atoms, assignment), outcome);
                // principal.age == (if S then 1 else 2) errs where `age` does,
                // and otherwise picks one equality atom.
                let expected = match (assignment[4], outcome) {
                    (Er, _) | (_, Er) => Er,
                    (_, Tr) => assignment[2],
                    (_, Fa) => assignment[3],
                };
                assert_eq!(interpret_under(&split2, &atoms, assignment), expected);
            }
            checked += 1;
        }
    }
    assert!(checked > 800, "only {checked} shapes checked");
}

/// The split of a `when` condition reports the same error as the input, not
/// merely an error. Each input errs in two places of different kinds, a left
/// sibling of the hoisted `if` and the hoisted test, and the input reports the
/// sibling's, which only the guard reproduces.
#[test]
fn split_preserves_error_kind() {
    // overflow on the left, a missing attribute in the test; and the reverse
    let inputs = [
        r#"principal.age + 1 == (if principal.nick == "a" then 1 else 2)"#,
        r#"principal.nick == (if principal.age + 1 == 3 then "a" else "b")"#,
    ];
    // (nick, age): both err, only the sibling errs, only the test errs, neither
    let stores = [
        (None, i64::MAX),
        (None, 1),
        (Some("a"), i64::MAX),
        (Some("a"), 1),
        (Some("b"), 2),
    ];
    // what the sibling's error says, which must be the one reported
    let sibling_errors = ["integer overflow", "does not have the attribute `nick`"];
    for (text, sibling_error) in inputs.into_iter().zip(sibling_errors) {
        let input = expr(text);
        let split = split_atoms(&input, DEFAULT_MAX_SPLIT_NODES).unwrap();
        assert!(split != input, "`{text}` should have been split");
        for (nick, age) in stores {
            let s = store(true, "x", nick, age);
            assert_eq!(eval(&input, &s), eval(&split, &s), "`{text}` on {nick:?}, {age}");
        }
        // the first store errs in both places: the sibling's error must win
        let s = store(true, "x", stores[0].0, stores[0].1);
        assert_eq!(eval(&split, &s), Err(sibling_error.to_string()), "`{text}`");
    }
}

// ---------------------------------------------------------------------------
// Eliminating record and set literals

/// Whether `e` is free of the literals [`eliminate_aggregates`] removes:
/// no record literal under `.attr`, `has` or `==` (both sides), no set
/// literal under `contains` (left), `containsAll` (right), `containsAny`
/// (either side), `==` (either side), `isEmpty` or `in` (right), outside
/// opaque atoms.
fn eliminated(e: &Expr<()>) -> bool {
    let is_record = |x: &Expr<()>| matches!(x.expr_kind(), ExprKind::Record(_));
    let is_set = |x: &Expr<()>| matches!(x.expr_kind(), ExprKind::SetLit(_));
    let here = match e.expr_kind() {
        ExprKind::GetAttr { expr, .. } | ExprKind::HasAttr { expr, .. } => !is_record(expr),
        ExprKind::UnaryApp { op: UnaryOp::IsEmpty, arg } => !is_set(arg),
        ExprKind::BinaryApp { op, arg1, arg2 } => match op {
            BinaryOp::Eq => {
                !(is_record(arg1) && is_record(arg2)) && !is_set(arg1) && !is_set(arg2)
            }
            BinaryOp::Contains => !is_set(arg1),
            BinaryOp::ContainsAll | BinaryOp::In => !is_set(arg2),
            BinaryOp::ContainsAny => !is_set(arg1) && !is_set(arg2),
            _ => true,
        },
        _ => true,
    };
    here && (is_iferror_call(e) || (0..e.kid_count()).all(|i| eliminated(e.kid(i))))
}

#[test]
fn record_fields_are_in_order() {
    let fields = |names: &[&str]| {
        names.iter().map(|n| (n.to_string(), expr(&format!("principal.{n}")))).collect()
    };
    let Ok(ExprKind::Record(sorted)) = ExprKind::record(fields(&["b", "a", "ab"])) else {
        panic!("distinct names")
    };
    let names: Vec<&str> = sorted.iter().map(|f| f.0.as_str()).collect();
    assert_eq!(names, ["a", "ab", "b"]);
    assert!(sorted[1].1 == expr("principal.ab"));
    match ExprKind::<()>::record(fields(&["b", "a", "b"])) {
        Err(name) => assert_eq!(name, "b"),
        Ok(k) => panic!("{k:?}"),
    }
    // the order in which fields are written does not matter
    let e = expr("{x: principal.age, y: 1} == {y: 2, x: 3}");
    assert!(e == expr("{y: 1, x: principal.age} == {x: 3, y: 2}"));
    let r =
        normalize_atoms(&e, &schema(), &view(), &accepts, DEFAULT_MAX_SPLIT_NODES).unwrap();
    assert!(r == expr("principal.age == 3 && false"), "{}", show(&r));
}

/// The elimination table: (input, normalized form). Every row is checked
/// exactly, and for elimination-freedom and cleanliness.
fn elim_table() -> Vec<(&'static str, &'static str)> {
    vec![
        // `.attr` on a record literal: the field, guarded by every field
        (
            "{x: principal.age, y: principal.name}.x == 3",
            "if principal.age == principal.age && principal.name == principal.name
             then principal.age == 3 else false",
        ),
        // nested records; a guard the term evaluates first anyway is dropped
        ("{x: {y: principal.age}}.x.y == 1", "principal.age == 1"),
        // `has` on a record literal is decided; a literal field needs no guard
        ("{x: 1} has x", "true"),
        ("{x: 1} has y || a", "false || a"),
        // record equality, key by key
        (
            "{x: principal.age, y: 1} == {x: 3, y: 1}",
            "principal.age == 3 && true",
        ),
        // a set literal's `contains` is a disjunction of equalities, whose
        // first disjunct evaluates the guards in their order: no wrapper
        (
            r#"[principal.name, "x"].contains(resource.owner.name)"#,
            r#"principal.name == resource.owner.name || "x" == resource.owner.name"#,
        ),
        // `containsAll` / `containsAny` with a literal right operand; a
        // literal left operand makes the `contains` disjunctions again
        (
            "[1, 2].containsAll([principal.age])",
            "1 == principal.age || 2 == principal.age",
        ),
        (
            "resource.level == 1 && [principal.age].containsAny([resource.level, 7])",
            "resource.level == 1 && (principal.age == resource.level || principal.age == 7)",
        ),
        // `isEmpty` on a set literal is decided, its elements guarded
        (
            "[principal.age].isEmpty()",
            "if principal.age == principal.age then false else false",
        ),
        // `in` over a set literal is a disjunction; literals and variables need no guard
        (
            r#"principal in [Group::"g1", Group::"g2"]"#,
            r#"principal in Group::"g1" || principal in Group::"g2""#,
        ),
        // a rewritten node under an erring node: the node's own error must
        // still precede its right sibling's — it becomes a guard, which the
        // term then evaluates first (dropped); the field's guard stays, as
        // the term evaluates it inside the `+`, not as a unit
        (
            "({x: principal.age}.x + 1) == resource.level + 1",
            "if principal.age == principal.age
             then principal.age + 1 == resource.level + 1 else false",
        ),
        // a left conjunct that evaluated establishes its strict subterms
        // (`resource.level` above); likewise the first split's wrapper
        // establishes `principal.age` for the elimination inside it
        (
            "[principal.age].contains(if c then 1 else 2)",
            "if principal.age == principal.age
             then (if c then principal.age == 1 else principal.age == 2) else false",
        ),
        // the context of a false `||`-left / `if`-test establishes the guard
        (
            "principal.age + 1 == 19 || [principal.age + 1].isEmpty()",
            "principal.age + 1 == 19 || false",
        ),
        (
            "if principal.age + 1 == 19 then false else [principal.age + 1].isEmpty()",
            "if principal.age + 1 == 19 then false else false",
        ),
        // the left-literal `containsAny` arm alone: the `contains` disjuncts
        // can err, so the literal's elements and the set keep their guards
        (
            "principal has tags && [principal.age, 7].containsAny(principal.tags)",
            "principal has tags
             && (if principal.age == principal.age && principal.tags == principal.tags
                 then principal.tags.contains(principal.age) || principal.tags.contains(7)
                 else false)",
        ),
        // `in` with an element that needs a guard
        (
            r#"principal has parent && principal in [Group::"g1", principal.parent]"#,
            r#"principal has parent
             && (if principal.parent == principal.parent
                 then principal in Group::"g1" || principal in principal.parent else false)"#,
        ),
        // a leaf erring twice in one atom is guarded once — and, deduped
        // before the term's own evaluation order is compared, not at all
        (
            "{x: principal.age, y: principal.age}.y == 1",
            "principal.age == 1",
        ),
        // set equality with a literal side: `containsAll` both ways, the
        // literal-right one an element-wise `contains` chain
        (
            "principal has tags && principal.tags == [1, 2]",
            "principal has tags
             && (if principal.tags == principal.tags
                 then (principal.tags.contains(1) && principal.tags.contains(2))
                      && [1, 2].containsAll(principal.tags)
                 else false)",
        ),
        // both sides literal: two chains of element equalities
        (
            "[principal.age, 7] == [7, principal.age]",
            "((principal.age == 7 || true) && (principal.age == principal.age || 7 == principal.age))
             && ((7 == principal.age || principal.age == principal.age) && (true || principal.age == 7))",
        ),
        // nested: a record field equality and a `contains` element equality
        (
            "principal has tags && {x: principal.tags, y: 1} == {x: [3], y: 1}",
            "principal has tags
             && (if principal.tags == principal.tags
                 then (principal.tags.contains(3) && [3].containsAll(principal.tags)) && true
                 else false)",
        ),
        (
            "principal has tags && [[principal.age]].contains(principal.tags)",
            "principal has tags
             && (if principal.age == principal.age && principal.tags == principal.tags
                 then ([principal.age].containsAll(principal.tags)
                       && principal.tags.contains(principal.age))
                 else false)",
        ),
        // clean of literals: unchanged
        ("a && principal.age == 1", "a && principal.age == 1"),
        // an `iferror` call is opaque
        (
            "iferror({x: principal.age}.x == 1, false)",
            "iferror({x: principal.age}.x == 1, false)",
        ),
    ]
}

#[test]
fn elim_tables() {
    let schema = schema();
    for (text, expected) in elim_table() {
        let input = normalize(text);
        let normalized =
            normalize_atoms(&input, &schema, &view(), &accepts, DEFAULT_MAX_SPLIT_NODES).unwrap();
        assert!(
            normalized == normalize(expected),
            "expected `{expected}` for `{text}`, got `{}`",
            show(&normalized)
        );
        assert!(
            eliminated(&normalized),
            "`{}` still has literals to eliminate",
            show(&normalized)
        );
        assert!(
            atoms_are_clean(&normalized),
            "`{}` has unclean atoms",
            show(&normalized)
        );
        // on an already clean input the pass alone, re-split, agrees
        if atoms_are_clean(&input) {
            let alone =
                eliminate_aggregates(&input, &schema, &view(), &accepts, DEFAULT_MAX_SPLIT_NODES)
                    .unwrap();
            let resplit = split_atoms(&alone, DEFAULT_MAX_SPLIT_NODES).unwrap();
            assert!(resplit == normalized, "for `{text}`");
        }
    }
}

/// The `contains` rule duplicates its argument per element, so nested
/// literals grow the rewritten atom exponentially as a tree while the
/// elimination itself, on shared structure, stays small: the budget rejects
/// the output before anything walks it as a tree.
#[test]
fn elim_budget() {
    let schema = schema();
    let mut text = "principal.active".to_string();
    for _ in 0..8 {
        text = format!("[true, true, true, true, true, true, true, true].contains({text})");
    }
    let input = normalize(&text);
    let started = std::time::Instant::now();
    assert!(matches!(
        normalize_atoms(&input, &schema, &view(), &accepts, DEFAULT_MAX_SPLIT_NODES),
        Err(DnfError::TooLarge { .. })
    ));
    assert!(
        started.elapsed() < std::time::Duration::from_secs(5),
        "the budget did not stop the blow-up in time"
    );
    // a small nesting is fine
    let small = normalize("[true, false].contains([true, false].contains(principal.active))");
    assert!(
        normalize_atoms(&small, &schema, &view(), &accepts, DEFAULT_MAX_SPLIT_NODES).is_ok()
    );
}

/// The rewrites assume a well-typed input and refuse anything else.
#[test]
fn elim_rejects_ill_typed_input() {
    let schema = schema();
    for text in [
        "principal.nick == \"x\"", // an optional attribute without a `has` guard
        "principal.age == \"x\"",  // incomparable types
        "[1].containsAll(principal.name)",
    ] {
        let input = expr(text);
        assert!(
            matches!(
                eliminate_aggregates(&input, &schema, &view(), &rejects, DEFAULT_MAX_SPLIT_NODES),
                Err(DnfError::NotWellTyped { .. })
            ),
            "`{text}` should be rejected"
        );
        assert!(matches!(
            normalize_atoms(&input, &schema, &view(), &rejects, DEFAULT_MAX_SPLIT_NODES),
            Err(DnfError::NotWellTyped { .. })
        ));
    }
    // an environment that the schema does not declare
    let elsewhere = RequestEnv {
        principal: "User".to_string(),
        action: EntityUid::new("Action", "edit"),
        resource: "Document".to_string(),
    };
    assert!(matches!(
        normalize_atoms(&t("a"), &schema, &elsewhere, &accepts, DEFAULT_MAX_SPLIT_NODES),
        Err(DnfError::RequestEnvNotFound(e)) if e == elsewhere
    ));
}

/// The normalized condition reports the same error as the input where a
/// rewritten record's earlier field errs (the guard) and where the surviving
/// field errs.
#[test]
fn elim_preserves_error_kind() {
    let schema = schema();
    // the record's first field overflows; its selected field is the nick,
    // and a set equality whose literal element overflows, with the other
    // side's element missing
    for text in [
        r#"principal has nick && {a: principal.age + 1, b: principal.nick}.b == "x""#,
        r#"principal has nick && [principal.age + 1, 2] == [2, if principal.nick == "x" then 3 else 4]"#,
    ] {
        let input = expr(text);
        let normalized =
            normalize_atoms(&input, &schema, &view(), &accepts, DEFAULT_MAX_SPLIT_NODES).unwrap();
        assert!(normalized != input);
        for (nick, age) in [(Some("x"), i64::MAX), (Some("x"), 1), (Some("y"), 1), (None, 1)] {
            let s = store(true, "x", nick, age);
            assert_eq!(eval(&input, &s), eval(&normalized, &s), "`{text}` on {nick:?}, {age}");
        }
        // the overflow of the dropped or reordered subterm is the error reported
        let s = store(true, "x", Some("x"), i64::MAX);
        assert_eq!(eval(&normalized, &s), Err("integer overflow".to_string()), "`{text}`");
    }
}

// ---------------------------------------------------------------------------
// Splitting policies

/// A scope-free policy with `when` as its condition.
fn when_policy(effect: Effect, id: &str, when: Expr<()>) -> Policy {
    Policy::from_when_clause(effect, when, id.to_string(), None)
}

fn split_default(policy: &Policy) -> Vec<Policy> {
    split_policy(policy, &valid, DEFAULT_MAX_SPLIT_NODES, DEFAULT_MAX_CUBES).unwrap()
}

fn split_set_default(set: &PolicySet) -> PolicySet {
    split_policy_set(set, &valid, DEFAULT_MAX_SPLIT_NODES, DEFAULT_MAX_CUBES).unwrap()
}

fn conditions(policies: &[Policy]) -> Vec<Expr<()>> {
    policies.iter().map(|p| p.when.as_ref().unwrap().dup()).collect()
}

fn set_of(policies: Vec<Policy>) -> PolicySet {
    let mut set = PolicySet::new();
    for p in policies {
        set.add(p).unwrap();
    }
    set
}

fn sorted_ids(set: &PolicySet) -> Vec<String> {
    let mut ids: Vec<String> = set.policies().iter().map(|p| p.id.clone()).collect();
    ids.sort();
    ids
}

/// A template-linked policy validates as the static policy it splits into,
/// with its slots filled.
#[test]
fn split_linked_policy_validates_the_instance() {
    let mut linked = when_policy(Effect::Permit, "l", expr("principal.level > 1"));
    linked.principal = ScopeConstraint::Eq(EntityRef::Slot);
    linked.principal_slot = Some(EntityUid::new("User", "u"));
    // finds an error in a policy whose principal is still a slot
    let validator = |set: &PolicySet| -> Vec<String> {
        set.policies()
            .iter()
            .filter(|p| matches!(p.principal, ScopeConstraint::Eq(EntityRef::Slot)))
            .map(|p| format!("{} is not an instance", p.id))
            .collect()
    };
    let split =
        split_policy(&linked, &validator, DEFAULT_MAX_SPLIT_NODES, DEFAULT_MAX_CUBES).unwrap();
    assert_eq!(split.len(), 1, "{split:?}");
    assert!(split[0].is_static());
    let all = split_policy_set(
        &set_of(vec![linked]),
        &validator,
        DEFAULT_MAX_SPLIT_NODES,
        DEFAULT_MAX_CUBES,
    )
    .unwrap();
    assert_eq!(all.policies().len(), 1);
}

#[test]
fn split_policy_readme_rule() {
    // `a || b` becomes the policies `a` and `!a && b`.
    let split = split_default(&when_policy(Effect::Permit, "p", t("a || b")));
    assert_eq!(conditions(&split), vec![t("a"), t("!a && b")]);
    assert_eq!(
        split.iter().map(|p| p.id.clone()).collect::<Vec<_>>(),
        ["p.cube0", "p.cube1"]
    );
    assert!(split.iter().all(|p| p.effect == Effect::Permit));

    // The same split with effect Forbid: the argument applies to deny policies.
    let split = split_default(&when_policy(Effect::Forbid, "p", t("a || b")));
    assert_eq!(conditions(&split), vec![t("a"), t("!a && b")]);
    assert!(split.iter().all(|p| p.effect == Effect::Forbid));
}

#[test]
fn split_policy_worked_example() {
    // Atoms are split first, then each cube becomes a policy.
    let (input, _, _) = *split_table().first().unwrap();
    let split = split_default(&when_policy(Effect::Permit, "p", normalize(input)));
    assert_eq!(
        conditions(&split),
        vec![
            normalize(r#"a && b && c && Document::"d1".level == 1"#),
            normalize(r#"a && b && !c && Document::"d2".level == 1"#),
            normalize(r#"a && !b && Document::"d2".level == 1"#),
        ]
    );
}

#[test]
fn split_policy_preserves_scope_and_annotations() {
    let mut policy = when_policy(Effect::Forbid, "policy0", t("a || c"));
    policy.annotations = Arc::new(vec![("origin".to_string(), "here".to_string())]);
    policy.principal = ScopeConstraint::Eq(EntityRef::Uid(EntityUid::new("User", "u")));
    let split = split_default(&policy);
    assert_eq!(conditions(&split), vec![t("a"), t("!a && c")]);
    for p in &split {
        assert_eq!(p.effect, Effect::Forbid);
        assert_eq!(p.principal_expr(), policy.principal_expr());
        assert_eq!(p.action_expr(), policy.action_expr());
        assert_eq!(p.resource_expr(), policy.resource_expr());
        assert_eq!(p.annotations, policy.annotations);
    }
}

#[test]
fn split_policy_edge_cases() {
    // A never-true condition: the policy vanishes.
    assert!(split_default(&when_policy(Effect::Permit, "p", t("false"))).is_empty());
    assert!(split_default(&when_policy(Effect::Permit, "p", t("a && false"))).is_empty());
    // A trivial condition: one policy, `when { true }`.
    let split = split_default(&when_policy(Effect::Permit, "p", t("true")));
    assert_eq!(conditions(&split), vec![t("true")]);
    // Duplicate literals dedup inside the cube.
    let split = split_default(&when_policy(Effect::Permit, "p", t("a && (b && a)")));
    assert_eq!(conditions(&split), vec![t("a && b")]);
    // An empty set splits into an empty set.
    assert_eq!(split_set_default(&PolicySet::new()).policies().len(), 0);
}

#[test]
fn split_policy_scope_only_unless_and_action() {
    // A scope-only policy: one policy, `when { true }`.
    let mut scope_only = when_policy(Effect::Permit, "p", t("true"));
    scope_only.when = None;
    let split = split_default(&scope_only);
    assert_eq!(conditions(&split), vec![t("true")]);

    // An `unless` clause is `!(..)` in the condition.
    let split = split_default(&when_policy(Effect::Permit, "p", t("a && !(c)")));
    assert_eq!(conditions(&split), vec![t("a && !c")]);

    // A non-`Any` action constraint survives the split.
    let mut policy = when_policy(Effect::Permit, "p", t("a || c"));
    policy.action = ActionConstraint::Eq(EntityUid::new("Action", "view"));
    let split = split_default(&policy);
    assert_eq!(conditions(&split), vec![t("a"), t("!a && c")]);
    for p in &split {
        assert_eq!(p.action_expr(), policy.action_expr());
        assert_eq!(p.action_expr(), expr(r#"action == Action::"view""#));
    }
}

#[test]
fn split_policy_budgets() {
    let policy = when_policy(Effect::Permit, "p", clauses(13));
    let err = split_policy(&policy, &valid, DEFAULT_MAX_SPLIT_NODES, DEFAULT_MAX_CUBES).unwrap_err();
    assert!(is_too_large(&err, DEFAULT_MAX_CUBES, "cubes"), "{err:?}");
    let (input, _, _) = *split_table().first().unwrap();
    let policy = when_policy(Effect::Permit, "p", normalize(input));
    let err = split_policy(&policy, &valid, 10, DEFAULT_MAX_CUBES).unwrap_err();
    assert!(is_too_large(&err, 10, "atom nodes"), "{err:?}");
}

#[test]
fn split_policy_set_ids_cannot_collide() {
    // `id` to `id + ".cube" + i` is injective, so even adversarial input ids
    // (one policy named like another's split) produce distinct ids.
    let set = set_of(vec![
        when_policy(Effect::Permit, "p", t("a || b")),
        when_policy(Effect::Permit, "p.cube0", t("c")),
    ]);
    assert_eq!(sorted_ids(&split_set_default(&set)), ["p.cube0", "p.cube0.cube0", "p.cube1"]);
}

#[test]
fn split_policies_decision_truth_tables() {
    // Decision preservation at the truth-table level, over every {T,F,E}
    // assignment: the condition is true iff exactly one split policy's
    // condition is true, and never more than one (the decision of a policy
    // set is a function of which policies are true).
    let mut inputs: Vec<Expr<()>> = rule_table().iter().map(|(input, _)| t(input)).collect();
    let leaves = [t("a"), t("c"), t("e"), t("true"), t("false")];
    for exprs in &shapes(4, &leaves) {
        inputs.extend(exprs.iter().map(|e| e.dup()));
    }
    let mut checked: usize = 0;
    for input in &inputs {
        let split = split_default(&when_policy(Effect::Permit, "p", input.dup()));
        let conds = conditions(&split);
        let mut atoms = Vec::new();
        atoms_of(input, &mut atoms);
        for assignment in assignments(atoms.len(), &[Tr, Fa, Er]) {
            let input_true = interpret_under(input, &atoms, &assignment) == Tr;
            let true_conds =
                conds.iter().filter(|c| interpret_under(c, &atoms, &assignment) == Tr).count();
            assert!(
                true_conds <= 1,
                "{true_conds} split policies true at once for `{}`",
                show(input)
            );
            assert_eq!(
                input_true,
                true_conds == 1,
                "decision differs for `{}` under {assignment:?}",
                show(input)
            );
        }
        checked += 1;
    }
    assert!(checked > 300, "only {checked} conditions checked");
}

#[test]
fn split_linked_policies() {
    // A template-linked policy splits into static policies: the scope
    // constraints carry the filled slot values.
    let mut linked = when_policy(Effect::Permit, "linked", t("a || c"));
    linked.principal = ScopeConstraint::Eq(EntityRef::Slot);
    linked.principal_slot = Some(EntityUid::new("User", "u"));
    let split = split_set_default(&set_of(vec![linked.dup()]));
    assert_eq!(sorted_ids(&split), ["linked.cube0", "linked.cube1"]);
    for p in split.policies() {
        assert_eq!(p.principal_expr(), expr(r#"principal == User::"u""#));
        assert!(p.is_static());
    }
    // A link filling both slots.
    let mut both = when_policy(Effect::Permit, "linked2", t("a"));
    both.principal = ScopeConstraint::Eq(EntityRef::Slot);
    both.resource = ScopeConstraint::Eq(EntityRef::Slot);
    both.principal_slot = Some(EntityUid::new("User", "u"));
    both.resource_slot = Some(EntityUid::new("Document", "d"));
    let split = split_set_default(&set_of(vec![both]));
    assert_eq!(split.policies().len(), 1);
    let p = &split.policies()[0];
    assert!(p.is_static());
    assert_eq!(p.principal_expr(), expr(r#"principal == User::"u""#));
    assert_eq!(p.resource_expr(), expr(r#"resource == Document::"d""#));
    // A slot that nothing fills is refused.
    linked.principal_slot = None;
    assert!(matches!(
        split_policy(&linked, &valid, DEFAULT_MAX_SPLIT_NODES, DEFAULT_MAX_CUBES),
        Err(DnfError::Unsupported("policy with an unfilled slot"))
    ));
}

/// The decision on a store, and how many policies err.
fn decide(set: &PolicySet, s: &Store) -> (Decision, usize) {
    let mut errors: usize = 0;
    let (mut permit, mut forbid) = (false, false);
    for p in set.policies() {
        match eval(&p.condition(), s) {
            Ok(Val::Bool(true)) if p.effect == Effect::Permit => permit = true,
            Ok(Val::Bool(true)) => forbid = true,
            Ok(_) => {}
            Err(_) => errors += 1,
        }
    }
    (if permit && !forbid { Decision::Allow } else { Decision::Deny }, errors)
}

#[test]
fn split_policy_set_preserves_concrete_decisions() {
    // An erroring policy is ignored, and dropped never-true cubes only remove
    // diagnostics, never change the decision.

    // A forbid that always errors or is false: it errors on this input (age
    // overflows) and is ignored; the split drops it entirely.
    let set = set_of(vec![
        when_policy(Effect::Permit, "p", expr("principal.active")),
        when_policy(Effect::Forbid, "f", expr("(principal.age + 1 == 19) && false")),
    ]);
    let s = store(true, "x", None, i64::MAX);
    assert_eq!(decide(&set, &s), (Decision::Allow, 1));
    assert_eq!(decide(&split_set_default(&set), &s), (Decision::Allow, 0));

    // The reverse diagnostics direction: cubes sharing an erroring prefix
    // each error, so one diagnostic becomes two, with the same decision.
    let set = set_of(vec![
        when_policy(Effect::Permit, "p", expr("principal.active")),
        when_policy(
            Effect::Forbid,
            "f",
            expr(r#"(principal.age + 1 == 19) && (principal.active || principal.name == "x")"#),
        ),
    ]);
    assert_eq!(decide(&set, &s), (Decision::Allow, 1));
    assert_eq!(decide(&split_set_default(&set), &s), (Decision::Allow, 2));

    // A forbid whose second cube fires: both sides deny; and an input where
    // no forbid fires: both sides allow.
    let set = set_of(vec![
        when_policy(Effect::Permit, "p", expr("true")),
        when_policy(Effect::Forbid, "f", expr(r#"principal.active || principal.name == "x""#)),
    ]);
    let split = split_set_default(&set);
    for (active, name, expected) in [
        (false, "x", Decision::Deny),
        (true, "y", Decision::Deny),
        (false, "y", Decision::Allow),
    ] {
        let s = store(active, name, None, 30);
        assert_eq!(decide(&set, &s).0, expected, "active={active} name={name}");
        assert_eq!(decide(&split, &s).0, expected, "active={active} name={name}");
    }
}

#[test]
fn a_condition_counts_only_in_its_scope() {
    // Where a policy does not apply its condition need not be well typed: the
    // name of a `User` is a string, and that of a `Robot` a number.
    let mut user = when_policy(Effect::Permit, "u", expr(r#"principal.name like "x*""#));
    user.principal = ScopeConstraint::Is("User".to_string());
    let mut robot = when_policy(Effect::Forbid, "r", expr(r#"principal.name == 3 || [1] == 2"#));
    robot.principal = ScopeConstraint::Is("Robot".to_string());
    let set = set_of(vec![user, robot]);
    let split = split_set_default(&set);
    for (name, expected) in [("x1", Decision::Allow), ("y", Decision::Deny)] {
        let s = store(true, name, None, 30);
        assert_eq!(decide(&set, &s), (expected, 0));
        assert_eq!(decide(&split, &s), (expected, 0));
    }
}

#[test]
fn ill_typed_policies_are_not_split() {
    let policy = when_policy(Effect::Permit, "p", t("a"));
    let validator = |_: &PolicySet| vec!["one".to_string(), "two".to_string()];
    match split_policy(&policy, &validator, DEFAULT_MAX_SPLIT_NODES, DEFAULT_MAX_CUBES) {
        Err(DnfError::NotWellTyped { errs }) => assert_eq!(errs, ["one", "two"]),
        other => panic!("{other:?}"),
    }
}

// ---------------------------------------------------------------------------
// Combining permits and forbids

#[test]
fn conjuncts_are_the_spine() {
    let e = t("a && (b && c) && e");
    let parts: Vec<Expr<()>> = conjuncts(&e).into_iter().map(|x| x.dup()).collect();
    assert_eq!(parts, vec![t("a"), t("b"), t("c"), t("e")]);
    let one = t("a || b");
    assert_eq!(conjuncts(&one).len(), 1);
}

#[test]
fn deny_witness_table() {
    assert_eq!(deny_witness(&vec![]), t("false"));
    // true exactly when the conjunction is not, and never an error
    let ds = vec![t("a"), t("e"), t("c")];
    let witness = deny_witness(&ds);
    let atoms = vec![t("a"), t("e"), t("c")];
    for assignment in assignments(3, &[Tr, Fa, Er]) {
        let chain = interpret_under(&t("a && e && c"), &atoms, &assignment);
        let expected = if chain == Tr { Fa } else { Tr };
        assert_eq!(interpret_under(&witness, &atoms, &assignment), expected, "{assignment:?}");
    }
}

/// What is validated, combined and split has no slot bound any more.
#[test]
fn linked_policies_become_static() {
    let mut linked = when_policy(Effect::Permit, "linked", t("a || c"));
    linked.principal = ScopeConstraint::Eq(EntityRef::Slot);
    linked.principal_slot = Some(EntityUid::new("User", "u"));
    assert!(!linked.is_static());
    let scope = expr(r#"principal == User::"u""#);
    let copies = static_copies(&vec![linked.dup()]).unwrap();
    let set = set_of(vec![linked]);
    let combined = combine_allow_deny(&set).unwrap();
    let cubes = allow_cubes(&set, &valid, DEFAULT_MAX_SPLIT_NODES, DEFAULT_MAX_CUBES).unwrap();
    for (made, n) in [(&copies, 1), (&combined, 1), (&cubes, 2)] {
        assert_eq!(made.policies().len(), n);
        for p in made.policies() {
            assert!(p.is_static());
            assert_eq!(p.principal_expr(), scope);
        }
    }
}

#[test]
fn combined_sets_decide_alike() {
    let set = set_of(vec![
        when_policy(Effect::Permit, "p1", expr("principal.active")),
        when_policy(Effect::Permit, "p2", expr(r#"principal.name == "x""#)),
        when_policy(Effect::Forbid, "f2", expr("principal.age + 1 == 19")),
        when_policy(Effect::Forbid, "f1", expr(r#"principal.name == "y" && resource.protected"#)),
    ]);
    let combined = combine_allow_deny(&set).unwrap();
    assert_eq!(sorted_ids(&combined), ["p1", "p2"]);
    assert!(combined.policies().iter().all(|p| p.effect == Effect::Permit));
    let cubes = allow_cubes(&set, &valid, DEFAULT_MAX_SPLIT_NODES, DEFAULT_MAX_CUBES).unwrap();
    assert!(cubes.policies().iter().all(|p| p.effect == Effect::Permit));
    for active in [false, true] {
        for name in ["x", "y", "z"] {
            for age in [18, 19, i64::MAX] {
                let s = store(active, name, None, age);
                let expected = decide(&set, &s).0;
                assert_eq!(decide(&combined, &s).0, expected, "{active} {name} {age}");
                assert_eq!(decide(&cubes, &s).0, expected, "{active} {name} {age}");
            }
        }
    }
    // without forbids the permits are carried over
    let permits = set_of(vec![when_policy(Effect::Permit, "p", t("a"))]);
    let same = combine_allow_deny(&permits).unwrap();
    assert_eq!(conditions(same.policies()), vec![t("a")]);
}

// ---------------------------------------------------------------------------
// `iferror` atoms

#[test]
fn iferror_atoms() {
    // an atom: the DNF keeps it opaque
    let dnf = Dnf::of_expr(&t("iferror(e, false) || a")).unwrap();
    assert_eq!(dnf.cubes().len(), 2);
    assert!(dnf.cubes().iter().all(|c| !c.is_never_true()));

    // an `iferror` call is opaque: the structure inside it is *not* hoisted
    // (that would move `e`'s error outside the coalescing scope), so the
    // split is the identity and its atoms count as clean
    let split = split_atoms(&t("iferror(a && e, false)"), DEFAULT_MAX_SPLIT_NODES).unwrap();
    assert_eq!(split, t("iferror(a && e, false)"));
    assert!(atoms_are_clean(&split));
    // ... while structure *around* an `iferror` call is hoisted as usual
    let split = split_atoms(&t("(a && b) == iferror(e, false)"), DEFAULT_MAX_SPLIT_NODES).unwrap();
    assert_eq!(
        split,
        t("if (a && b) then true == iferror(e, false) else false == iferror(e, false)")
    );
    assert!(atoms_are_clean(&split));
    // never errs, and agrees with its argument where that does not err
    for age in [18, 19, i64::MAX] {
        let s = store(true, "x", None, age);
        let plain = eval(&t("e"), &s);
        let coalesced = eval(&t("iferror(e, false)"), &s);
        assert!(coalesced.is_ok());
        if plain.is_ok() {
            assert_eq!(coalesced, plain);
        }
    }
}

// ---------------------------------------------------------------------------
// `like` without wildcards is `==`

/// A wildcard-free pattern becomes an equality (the empty pattern too), an
/// escaped `\*` is a character, a wildcard is kept, and the rewrite reaches
/// inside every node kind.
#[test]
fn rewrite_like_hand_cases() {
    let cases = [
        (
            r#"principal.name like "alice""#,
            r#"principal.name == "alice""#,
        ),
        (r#"principal.name like """#, r#"principal.name == """#),
        (
            r#"principal.name like "a\*b""#,
            r#"principal.name == "a*b""#,
        ),
        (
            r#"principal.name like "a*b""#,
            r#"principal.name like "a*b""#,
        ),
        (r#"principal.name like "*""#, r#"principal.name like "*""#),
        (
            r#"if principal.name like "x" then {a: principal.name like "y"}.a else [principal.name like "z*"].contains(true)"#,
            r#"if principal.name == "x" then {a: principal.name == "y"}.a else [principal.name like "z*"].contains(true)"#,
        ),
        (
            r#"iferror(principal.name like "x", principal.name like "y") && !(principal.name like "w")"#,
            r#"iferror(principal.name == "x", principal.name == "y") && !(principal.name == "w")"#,
        ),
        (
            r#"(principal.name like "x") == (principal.name like "*x")"#,
            r#"(principal.name == "x") == (principal.name like "*x")"#,
        ),
    ];
    for (input, expected) in cases {
        let rewritten = rewrite_like(&expr(input)).unwrap();
        assert_eq!(rewritten, expr(expected), "{input}");
        assert!(likes_have_wildcards(&rewritten), "{input}");
    }
    assert!(!likes_have_wildcards(&expr(
        r#"principal.name like "x" || false"#
    )));
    assert!(likes_have_wildcards(&expr(
        r#"principal.name like "x*" || false"#
    )));
}

/// The rewrite changes exactly what has a `like` without a wildcard.
#[test]
fn rewrite_like_changes_only_what_is_exact() {
    for text in [
        r#"principal.name like "x""#,
        r#"principal.name like "x*""#,
        r#"!(principal.name like "*") && principal.name like "y""#,
        r#"principal.age == 1 || principal.name like "a*b""#,
        "principal.age == 1",
    ] {
        let input = expr(text);
        let unchanged = rewrite_like(&input).unwrap() == input;
        assert_eq!(unchanged, likes_have_wildcards(&input), "{text}");
    }
}

#[test]
fn rewrite_like_matches_the_same_strings() {
    for (text, matches, misses) in [
        (r#"principal.name like "ab""#, vec!["ab"], vec!["", "a", "abc", "ba"]),
        (r#"principal.name like "a\*b""#, vec!["a*b"], vec!["ab", "axb"]),
        (r#"principal.name like "a*b""#, vec!["ab", "axb", "a**b"], vec!["a", "b", "ba"]),
    ] {
        let input = expr(text);
        let rewritten = rewrite_like(&input).unwrap();
        for (names, expected) in [(matches, true), (misses, false)] {
            for name in names {
                let s = store(true, name, None, 1);
                assert_eq!(eval(&input, &s), Ok(Val::Bool(expected)), "{text} on {name:?}");
                assert_eq!(eval(&rewritten, &s), Ok(Val::Bool(expected)), "{text} on {name:?}");
            }
        }
    }
}

// ---------------------------------------------------------------------------
// Reading and printing

/// `iferror(a, b)` reads as a function-style call and prints back to the same
/// expression.
#[test]
fn parses_and_prints() {
    for src in [
        "iferror(true, false)",
        "!iferror(1 < 2, true) && iferror(false, true)",
    ] {
        let e = expr(src);
        let printed = show(&e);
        let again = expr(&printed);
        assert_eq!(e, again, "{src} -> {printed}");
    }
    assert!(is_iferror_call(&expr("iferror(true, false)")));
    assert!(!is_iferror_call(&expr("!iferror(true, false)")));
}
