//! Residuals: conversion, possible outcomes, errors, literals.

#![allow(dead_code)]

use std::sync::Arc;

use cedar_analysis::ast::{
    BinaryOp, Data, EntityUid, Expr, ExprKind, Loc, PatternElem, Prim, SlotId, UnaryOp, Var,
};
use cedar_analysis::outcome::EvaluationOutcome;
use cedar_analysis::policy::Effect;
use cedar_analysis::residual::{ExprToResidualError, Residual, ResidualKind};
use cedar_analysis::slots::SlotEnv;
use cedar_analysis::types::{BoolType, Type};
use EvaluationOutcome::{Error as Er, False as Fa, True as Tr};

// ---------------------------------------------------------------------------
// A reader and a printer for expressions

#[derive(Clone, Debug, PartialEq)]
enum Tok {
    Word(String),
    Num(i64),
    Text(String),
    Sym(String),
    Slot(String),
}

struct Reader {
    toks: Vec<(Tok, usize, usize)>,
    at: usize,
}

fn lex(text: &str) -> Vec<(Tok, usize, usize)> {
    let chars: Vec<(usize, char)> = text.char_indices().collect();
    let offset = |i: usize| chars.get(i).map_or(text.len(), |c| c.0);
    let mut out = Vec::new();
    let mut i: usize = 0;
    while i < chars.len() {
        let c = chars[i].1;
        let start = i;
        if c.is_whitespace() {
            i += 1;
            continue;
        }
        let tok = if c.is_alphabetic() || c == '_' {
            while i < chars.len() && (chars[i].1.is_alphanumeric() || chars[i].1 == '_') {
                i += 1;
            }
            Tok::Word(chars[start..i].iter().map(|c| c.1).collect())
        } else if c.is_ascii_digit() {
            while i < chars.len() && chars[i].1.is_ascii_digit() {
                i += 1;
            }
            let digits: String = chars[start..i].iter().map(|c| c.1).collect();
            Tok::Num(digits.parse().unwrap())
        } else if c == '"' {
            i += 1;
            let mut s = String::new();
            while chars[i].1 != '"' {
                if chars[i].1 == '\\' {
                    s.push('\\');
                    i += 1;
                }
                s.push(chars[i].1);
                i += 1;
            }
            i += 1;
            Tok::Text(s)
        } else if c == '?' {
            i += 1;
            while i < chars.len() && chars[i].1.is_alphabetic() {
                i += 1;
            }
            Tok::Slot(chars[start + 1..i].iter().map(|c| c.1).collect())
        } else {
            let two: String = chars[i..].iter().take(2).map(|c| c.1).collect();
            if ["&&", "||", "==", "!=", "<=", ">=", "::"].contains(&two.as_str()) {
                i += 2;
                Tok::Sym(two)
            } else {
                i += 1;
                Tok::Sym(c.to_string())
            }
        };
        out.push((tok, offset(start), offset(i)));
    }
    out
}

fn unescape(s: &str) -> String {
    let mut out = String::new();
    let mut chars = s.chars();
    while let Some(c) = chars.next() {
        out.push(if c == '\\' { chars.next().unwrap() } else { c });
    }
    out
}

fn pattern(s: &str) -> Vec<PatternElem> {
    let mut out = Vec::new();
    let mut chars = s.chars();
    while let Some(c) = chars.next() {
        out.push(match c {
            '\\' => PatternElem::Char(chars.next().unwrap()),
            '*' => PatternElem::Wildcard,
            c => PatternElem::Char(c),
        });
    }
    out
}

fn mk(kind: ExprKind<()>) -> Expr<()> {
    Expr { kind, loc: None, data: () }
}

fn un(op: UnaryOp, arg: Expr<()>) -> Expr<()> {
    mk(ExprKind::UnaryApp { op, arg: Arc::new(arg) })
}

fn bin(op: BinaryOp, a: Expr<()>, b: Expr<()>) -> Expr<()> {
    mk(ExprKind::BinaryApp { op, arg1: Arc::new(a), arg2: Arc::new(b) })
}

impl Reader {
    fn is(&self, s: &str) -> bool {
        match self.toks.get(self.at) {
            Some((Tok::Sym(x), _, _)) | Some((Tok::Word(x), _, _)) => x == s,
            _ => false,
        }
    }

    fn eat(&mut self, s: &str) -> bool {
        let yes = self.is(s);
        if yes {
            self.at += 1;
        }
        yes
    }

    fn need(&mut self, s: &str) {
        assert!(self.eat(s), "expected `{s}` at {:?}", self.toks.get(self.at));
    }

    fn word(&mut self) -> String {
        match self.toks[self.at].0.clone() {
            Tok::Word(w) => {
                self.at += 1;
                w
            }
            t => panic!("expected a name, got {t:?}"),
        }
    }

    /// `e` with the range of the text from token `from` up to here.
    fn located(&self, from: usize, e: Expr<()>) -> Expr<()> {
        let loc = Loc { start: self.toks[from].1, end: self.toks[self.at - 1].2 };
        Expr { kind: e.kind, loc: Some(loc), data: () }
    }

    fn expr(&mut self) -> Expr<()> {
        let from = self.at;
        if self.eat("if") {
            let c = self.expr();
            self.need("then");
            let a = self.expr();
            self.need("else");
            let b = self.expr();
            let e = mk(ExprKind::If {
                test_expr: Arc::new(c),
                then_expr: Arc::new(a),
                else_expr: Arc::new(b),
            });
            return self.located(from, e);
        }
        let mut e = self.conjunction();
        while self.eat("||") {
            let r = self.conjunction();
            e = mk(ExprKind::Or { left: Arc::new(e), right: Arc::new(r) });
            e = self.located(from, e);
        }
        e
    }

    fn conjunction(&mut self) -> Expr<()> {
        let from = self.at;
        let mut e = self.relation();
        while self.eat("&&") {
            let r = self.relation();
            e = mk(ExprKind::And { left: Arc::new(e), right: Arc::new(r) });
            e = self.located(from, e);
        }
        e
    }

    fn relation(&mut self) -> Expr<()> {
        let from = self.at;
        let l = self.sum();
        let e = if self.eat("==") {
            let r = self.sum();
            bin(BinaryOp::Eq, l, r)
        } else if self.eat("!=") {
            let r = self.sum();
            un(UnaryOp::Not, bin(BinaryOp::Eq, l, r))
        } else if self.eat("<=") {
            let r = self.sum();
            bin(BinaryOp::LessEq, l, r)
        } else if self.eat("<") {
            let r = self.sum();
            bin(BinaryOp::Less, l, r)
        } else if self.eat(">=") {
            let r = self.sum();
            un(UnaryOp::Not, bin(BinaryOp::Less, l, r))
        } else if self.eat(">") {
            let r = self.sum();
            un(UnaryOp::Not, bin(BinaryOp::LessEq, l, r))
        } else if self.eat("in") {
            let r = self.sum();
            bin(BinaryOp::In, l, r)
        } else if self.eat("has") {
            let attr = self.word();
            mk(ExprKind::HasAttr { expr: Arc::new(l), attr })
        } else if self.eat("is") {
            let entity_type = self.word();
            mk(ExprKind::Is { expr: Arc::new(l), entity_type })
        } else if self.eat("like") {
            let Tok::Text(s) = self.toks[self.at].0.clone() else { panic!("expected a pattern") };
            self.at += 1;
            mk(ExprKind::Like { expr: Arc::new(l), pattern: Arc::new(pattern(&s)) })
        } else {
            return l;
        };
        self.located(from, e)
    }

    fn sum(&mut self) -> Expr<()> {
        let from = self.at;
        let mut e = self.product();
        loop {
            let op = if self.eat("+") {
                BinaryOp::Add
            } else if self.eat("-") {
                BinaryOp::Sub
            } else {
                return e;
            };
            let r = self.product();
            e = bin(op, e, r);
            e = self.located(from, e);
        }
    }

    fn product(&mut self) -> Expr<()> {
        let from = self.at;
        let mut e = self.unary();
        while self.eat("*") {
            let r = self.unary();
            e = bin(BinaryOp::Mul, e, r);
            e = self.located(from, e);
        }
        e
    }

    fn unary(&mut self) -> Expr<()> {
        let from = self.at;
        if self.eat("!") {
            let e = self.unary();
            let e = un(UnaryOp::Not, e);
            return self.located(from, e);
        }
        if self.eat("-") {
            let e = self.unary();
            let e = un(UnaryOp::Neg, e);
            return self.located(from, e);
        }
        self.member()
    }

    fn args(&mut self, close: &str) -> Vec<Expr<()>> {
        let mut out = Vec::new();
        while !self.eat(close) {
            out.push(self.expr());
            if !self.is(close) {
                self.need(",");
            }
        }
        out
    }

    fn member(&mut self) -> Expr<()> {
        let from = self.at;
        let mut e = self.primary();
        loop {
            if self.eat("[") {
                let Tok::Text(attr) = self.toks[self.at].0.clone() else { panic!("expected a key") };
                self.at += 1;
                self.need("]");
                e = mk(ExprKind::GetAttr { expr: Arc::new(e), attr });
                e = self.located(from, e);
                continue;
            }
            if !self.eat(".") {
                return e;
            }
            let name = self.word();
            e = if self.eat("(") {
                let mut args = self.args(")");
                let op = match name.as_str() {
                    "isEmpty" => {
                        assert!(args.is_empty());
                        e = un(UnaryOp::IsEmpty, e);
                        e = self.located(from, e);
                        continue;
                    }
                    "toDays" => {
                        let args = Arc::new(vec![e]);
                        e = mk(ExprKind::ExtensionFunctionApp { fn_name: name, args });
                        e = self.located(from, e);
                        continue;
                    }
                    "contains" => BinaryOp::Contains,
                    "containsAll" => BinaryOp::ContainsAll,
                    "containsAny" => BinaryOp::ContainsAny,
                    "hasTag" => BinaryOp::HasTag,
                    "getTag" => BinaryOp::GetTag,
                    other => panic!("unknown method {other}"),
                };
                assert_eq!(args.len(), 1);
                bin(op, e, args.pop().unwrap())
            } else {
                mk(ExprKind::GetAttr { expr: Arc::new(e), attr: name })
            };
            e = self.located(from, e);
        }
    }

    fn primary(&mut self) -> Expr<()> {
        let from = self.at;
        let tok = self.toks[from].0.clone();
        self.at += 1;
        let e = match tok {
            Tok::Num(n) => mk(ExprKind::Lit(Prim::Long(n))),
            Tok::Text(s) => mk(ExprKind::Lit(Prim::String(unescape(&s)))),
            Tok::Slot(s) => mk(ExprKind::Slot(if s == "principal" {
                SlotId::Principal
            } else {
                SlotId::Resource
            })),
            Tok::Sym(s) => match s.as_str() {
                "(" => {
                    let e = self.expr();
                    self.need(")");
                    return e;
                }
                "[" => mk(ExprKind::SetLit(Arc::new(self.args("]")))),
                "{" => {
                    let mut fields = Vec::new();
                    while !self.eat("}") {
                        let key = self.word();
                        self.need(":");
                        fields.push((key, self.expr()));
                        if !self.is("}") {
                            self.need(",");
                        }
                    }
                    mk(ExprKind::record(fields).unwrap())
                }
                other => panic!("unexpected `{other}`"),
            },
            Tok::Word(w) => match w.as_str() {
                "true" => mk(ExprKind::Lit(Prim::Bool(true))),
                "false" => mk(ExprKind::Lit(Prim::Bool(false))),
                "principal" => mk(ExprKind::Var(Var::Principal)),
                "action" => mk(ExprKind::Var(Var::Action)),
                "resource" => mk(ExprKind::Var(Var::Resource)),
                "context" => mk(ExprKind::Var(Var::Context)),
                _ => {
                    let mut ty = w;
                    let mut uid = None;
                    while self.eat("::") {
                        if let Tok::Text(s) = self.toks[self.at].0.clone() {
                            self.at += 1;
                            uid = Some(unescape(&s));
                        } else {
                            ty = format!("{ty}::{}", self.word());
                        }
                    }
                    match uid {
                        Some(eid) => mk(ExprKind::Lit(Prim::EntityUid(EntityUid::new(&ty, &eid)))),
                        None => {
                            self.need("(");
                            let args = Arc::new(self.args(")"));
                            mk(ExprKind::ExtensionFunctionApp { fn_name: ty, args })
                        }
                    }
                }
            },
        };
        self.located(from, e)
    }
}

fn expr(text: &str) -> Expr<()> {
    let mut r = Reader { toks: lex(text), at: 0 };
    let e = r.expr();
    assert_eq!(r.at, r.toks.len(), "trailing text in `{text}`");
    e
}

fn quoted(s: &str) -> String {
    format!("\"{}\"", s.replace('\\', "\\\\").replace('"', "\\\""))
}

/// `e` as text, with every operand in brackets.
fn show<D>(e: &Expr<D>) -> String {
    let all = |es: &[Expr<D>]| es.iter().map(show).collect::<Vec<_>>().join(", ");
    match e.expr_kind() {
        ExprKind::Lit(Prim::Bool(b)) => b.to_string(),
        ExprKind::Lit(Prim::Long(n)) => n.to_string(),
        ExprKind::Lit(Prim::String(s)) => quoted(s),
        ExprKind::Lit(Prim::EntityUid(u)) => format!("{}::{}", u.ty, quoted(&u.eid)),
        ExprKind::Var(Var::Principal) => "principal".to_string(),
        ExprKind::Var(Var::Action) => "action".to_string(),
        ExprKind::Var(Var::Resource) => "resource".to_string(),
        ExprKind::Var(Var::Context) => "context".to_string(),
        ExprKind::Slot(SlotId::Principal) => "?principal".to_string(),
        ExprKind::Slot(SlotId::Resource) => "?resource".to_string(),
        ExprKind::Unknown(u) => format!("unknown({})", quoted(u)),
        ExprKind::If { test_expr, then_expr, else_expr } => format!(
            "(if {} then {} else {})",
            show(test_expr),
            show(then_expr),
            show(else_expr)
        ),
        ExprKind::And { left, right } => format!("({} && {})", show(left), show(right)),
        ExprKind::Or { left, right } => format!("({} || {})", show(left), show(right)),
        ExprKind::UnaryApp { op: UnaryOp::Not, arg } => format!("!{}", show(arg)),
        ExprKind::UnaryApp { op: UnaryOp::Neg, arg } => format!("-{}", show(arg)),
        ExprKind::UnaryApp { op: UnaryOp::IsEmpty, arg } => format!("{}.isEmpty()", show(arg)),
        ExprKind::BinaryApp { op, arg1, arg2 } => {
            let (a, b) = (show(arg1), show(arg2));
            match op {
                BinaryOp::Eq => format!("({a} == {b})"),
                BinaryOp::Less => format!("({a} < {b})"),
                BinaryOp::LessEq => format!("({a} <= {b})"),
                BinaryOp::Add => format!("({a} + {b})"),
                BinaryOp::Sub => format!("({a} - {b})"),
                BinaryOp::Mul => format!("({a} * {b})"),
                BinaryOp::In => format!("({a} in {b})"),
                BinaryOp::Contains => format!("{a}.contains({b})"),
                BinaryOp::ContainsAll => format!("{a}.containsAll({b})"),
                BinaryOp::ContainsAny => format!("{a}.containsAny({b})"),
                BinaryOp::GetTag => format!("{a}.getTag({b})"),
                BinaryOp::HasTag => format!("{a}.hasTag({b})"),
            }
        }
        ExprKind::ExtensionFunctionApp { fn_name, args } => format!("{fn_name}({})", all(args)),
        ExprKind::GetAttr { expr, attr } => format!("{}.{attr}", show(expr)),
        ExprKind::HasAttr { expr, attr } => format!("({} has {attr})", show(expr)),
        ExprKind::Like { expr, pattern } => {
            let p: String = pattern
                .iter()
                .map(|x| match x {
                    PatternElem::Wildcard => "*".to_string(),
                    PatternElem::Char('*') => "\\*".to_string(),
                    PatternElem::Char(c) => c.to_string(),
                })
                .collect();
            format!("({} like \"{p}\")", show(expr))
        }
        ExprKind::Is { expr, entity_type } => format!("({} is {entity_type})", show(expr)),
        ExprKind::SetLit(es) => format!("[{}]", all(es)),
        ExprKind::Record(fields) => {
            let fs: Vec<String> =
                fields.iter().map(|(k, v)| format!("{k}: {}", show(v))).collect();
            format!("{{{}}}", fs.join(", "))
        }
    }
}

// ---------------------------------------------------------------------------
// A concrete evaluator, as an oracle

#[derive(Clone, Debug, PartialEq)]
enum Val {
    Bool(bool),
    Long(i64),
    Text(String),
    Uid(String, String),
    SetOf(Vec<Val>),
    Rec(Vec<(String, Val)>),
}

/// An entity of a store.
#[derive(Clone, Debug)]
struct Entity {
    attrs: Vec<(String, Val)>,
    tags: Vec<(String, Val)>,
    parents: Vec<(String, String)>,
}

/// A request and the entities that exist.
struct Store {
    principal: (String, String),
    action: (String, String),
    resource: (String, String),
    entities: Vec<((String, String), Entity)>,
}

fn name(ty: &str, eid: &str) -> (String, String) {
    (ty.to_string(), eid.to_string())
}

impl Store {
    fn get(&self, ty: &str, eid: &str) -> Option<&Entity> {
        self.entities.iter().find(|(k, _)| k.0 == ty && k.1 == eid).map(|(_, e)| e)
    }

    fn is_in(&self, x: &(String, String), y: &(String, String)) -> bool {
        x == y
            || self
                .get(&x.0, &x.1)
                .is_some_and(|e| e.parents.iter().any(|p| self.is_in(p, y)))
    }
}

fn uid(p: &(String, String)) -> Val {
    Val::Uid(p.0.clone(), p.1.clone())
}

fn as_uid(v: &Val) -> Result<(String, String), String> {
    match v {
        Val::Uid(ty, eid) => Ok((ty.clone(), eid.clone())),
        _ => type_error(),
    }
}

fn field(fields: &[(String, Val)], key: &str) -> Option<Val> {
    fields.iter().find(|(k, _)| k == key).map(|(_, v)| v.clone())
}

fn type_error<X>() -> Result<X, String> {
    Err("type error".to_string())
}

fn as_bool(v: Val) -> Result<bool, String> {
    match v {
        Val::Bool(b) => Ok(b),
        _ => type_error(),
    }
}

fn as_long(v: Val) -> Result<i64, String> {
    match v {
        Val::Long(n) => Ok(n),
        _ => type_error(),
    }
}

fn as_set(v: Val) -> Result<Vec<Val>, String> {
    match v {
        Val::SetOf(s) => Ok(s),
        _ => type_error(),
    }
}

fn equal(a: &Val, b: &Val) -> bool {
    match (a, b) {
        (Val::SetOf(x), Val::SetOf(y)) => {
            x.iter().all(|v| y.iter().any(|u| equal(u, v)))
                && y.iter().all(|v| x.iter().any(|u| equal(u, v)))
        }
        (Val::Rec(x), Val::Rec(y)) => {
            x.len() == y.len()
                && x.iter().zip(y).all(|((k, v), (l, u))| k == l && equal(v, u))
        }
        _ => a == b,
    }
}

fn eval(e: &Expr<()>, s: &Store) -> Result<Val, String> {
    let b = |e: &Expr<()>| eval(e, s).and_then(as_bool);
    Ok(match e.expr_kind() {
        ExprKind::Lit(Prim::Bool(b)) => Val::Bool(*b),
        ExprKind::Lit(Prim::Long(n)) => Val::Long(*n),
        ExprKind::Lit(Prim::String(t)) => Val::Text(t.clone()),
        ExprKind::Lit(Prim::EntityUid(u)) => Val::Uid(u.ty.clone(), u.eid.clone()),
        ExprKind::Var(Var::Principal) => uid(&s.principal),
        ExprKind::Var(Var::Resource) => uid(&s.resource),
        ExprKind::Var(Var::Action) => uid(&s.action),
        ExprKind::Var(Var::Context) => Val::Rec(Vec::new()),
        ExprKind::If { test_expr, then_expr, else_expr } => {
            return if b(test_expr)? { eval(then_expr, s) } else { eval(else_expr, s) }
        }
        ExprKind::And { left, right } => Val::Bool(b(left)? && b(right)?),
        ExprKind::Or { left, right } => Val::Bool(b(left)? || b(right)?),
        ExprKind::UnaryApp { op: UnaryOp::Not, arg } => Val::Bool(!b(arg)?),
        ExprKind::UnaryApp { op: UnaryOp::Neg, arg } => Val::Long(
            as_long(eval(arg, s)?)?.checked_neg().ok_or("integer overflow")?,
        ),
        ExprKind::UnaryApp { op: UnaryOp::IsEmpty, arg } => {
            Val::Bool(as_set(eval(arg, s)?)?.is_empty())
        }
        ExprKind::BinaryApp { op, arg1, arg2 } => {
            let (x, y) = (eval(arg1, s)?, eval(arg2, s)?);
            match op {
                BinaryOp::Eq => Val::Bool(equal(&x, &y)),
                BinaryOp::Less => Val::Bool(as_long(x)? < as_long(y)?),
                BinaryOp::LessEq => Val::Bool(as_long(x)? <= as_long(y)?),
                BinaryOp::Add => Val::Long(
                    as_long(x)?.checked_add(as_long(y)?).ok_or("integer overflow")?,
                ),
                BinaryOp::Sub => Val::Long(
                    as_long(x)?.checked_sub(as_long(y)?).ok_or("integer overflow")?,
                ),
                BinaryOp::Mul => Val::Long(
                    as_long(x)?.checked_mul(as_long(y)?).ok_or("integer overflow")?,
                ),
                BinaryOp::Contains => Val::Bool(as_set(x)?.iter().any(|v| equal(v, &y))),
                BinaryOp::ContainsAll => {
                    let (x, y) = (as_set(x)?, as_set(y)?);
                    Val::Bool(y.iter().all(|v| x.iter().any(|u| equal(u, v))))
                }
                BinaryOp::ContainsAny => {
                    let (x, y) = (as_set(x)?, as_set(y)?);
                    Val::Bool(y.iter().any(|v| x.iter().any(|u| equal(u, v))))
                }
                BinaryOp::In => {
                    let x = as_uid(&x)?;
                    let ys = match y {
                        Val::SetOf(ys) => ys,
                        y => vec![y],
                    };
                    let ys = ys.iter().map(as_uid).collect::<Result<Vec<_>, _>>()?;
                    Val::Bool(ys.iter().any(|y| s.is_in(&x, y)))
                }
                BinaryOp::GetTag | BinaryOp::HasTag => {
                    let (ty, eid) = as_uid(&x)?;
                    let Val::Text(key) = y else { return type_error() };
                    let found = s.get(&ty, &eid).and_then(|e| field(&e.tags, &key));
                    match op {
                        BinaryOp::HasTag => Val::Bool(found.is_some()),
                        _ => found.ok_or(format!("does not have the tag `{key}`"))?,
                    }
                }
            }
        }
        ExprKind::ExtensionFunctionApp { fn_name, args } => match fn_name.as_str() {
            "iferror" => match eval(&args[0], s) {
                Err(_) => Val::Bool(b(&args[1])?),
                Ok(v) => Val::Bool(as_bool(v)?),
            },
            "toDays" => eval(&args[0], s)?,
            "duration" => match eval(&args[0], s)? {
                Val::Text(t) => Val::Long(t.trim_end_matches('d').parse().unwrap()),
                _ => return type_error(),
            },
            _ => return Err("an error".to_string()),
        },
        ExprKind::GetAttr { expr, attr } => {
            let fields = match eval(expr, s)? {
                Val::Rec(fields) => fields,
                Val::Uid(ty, eid) => s.get(&ty, &eid).ok_or("no such entity")?.attrs.clone(),
                _ => return type_error(),
            };
            field(&fields, attr).ok_or(format!("does not have the attribute `{attr}`"))?
        }
        ExprKind::HasAttr { expr, attr } => match eval(expr, s)? {
            Val::Rec(fields) => Val::Bool(field(&fields, attr).is_some()),
            Val::Uid(ty, eid) => {
                Val::Bool(s.get(&ty, &eid).is_some_and(|e| field(&e.attrs, attr).is_some()))
            }
            _ => return type_error(),
        },
        ExprKind::Like { expr, pattern } => match eval(expr, s)? {
            Val::Text(t) => Val::Bool(wildcard_match(pattern, &t)),
            _ => return type_error(),
        },
        ExprKind::Is { expr, entity_type } => match eval(expr, s)? {
            Val::Uid(ty, _) => Val::Bool(ty == *entity_type),
            _ => return type_error(),
        },
        ExprKind::SetLit(es) => {
            Val::SetOf(es.iter().map(|x| eval(x, s)).collect::<Result<Vec<_>, _>>()?)
        }
        ExprKind::Record(fields) => Val::Rec(
            fields
                .iter()
                .map(|(k, v)| Ok((k.clone(), eval(v, s)?)))
                .collect::<Result<Vec<_>, String>>()?,
        ),
        ExprKind::Slot(_) | ExprKind::Unknown(_) => return type_error(),
    })
}

fn wildcard_match(pattern: &[PatternElem], text: &str) -> bool {
    let chars: Vec<char> = text.chars().collect();
    matches_from(pattern, &chars)
}

fn matches_from(p: &[PatternElem], t: &[char]) -> bool {
    match p.first() {
        None => t.is_empty(),
        Some(PatternElem::Char(c)) => t.first() == Some(c) && matches_from(&p[1..], &t[1..]),
        Some(PatternElem::Wildcard) => (0..=t.len()).any(|i| matches_from(&p[1..], &t[i..])),
    }
}

// ---------------------------------------------------------------------------
// A typechecker for the expressions below

fn boolean() -> Type {
    Type::Bool(BoolType::AnyBool)
}

fn just(b: bool) -> Type {
    Type::Bool(if b { BoolType::True } else { BoolType::False })
}

fn entity(ty: &str) -> Type {
    Type::Entity(Arc::new(vec![ty.to_string()]))
}

fn entity_name(t: &Type) -> Option<&str> {
    match t {
        Type::Entity(names) if names.len() == 1 => Some(&names[0]),
        _ => None,
    }
}

/// The types of the nodes of `e`, where the principal is a `User`, the
/// resource a `Document` and the action `Action::"get"`.
fn infer(e: &Expr<()>) -> Type {
    match e.expr_kind() {
        ExprKind::Lit(Prim::Bool(b)) => just(*b),
        ExprKind::Lit(Prim::Long(_)) => Type::Long,
        ExprKind::Lit(Prim::String(_)) => Type::String,
        ExprKind::Lit(Prim::EntityUid(u)) => entity(&u.ty),
        ExprKind::Var(Var::Principal) => entity("User"),
        ExprKind::Var(Var::Resource) => entity("Document"),
        ExprKind::Var(Var::Action) => entity("Action"),
        ExprKind::Var(Var::Context) => Type::RecordOf(Arc::new(vec![])),
        ExprKind::Slot(SlotId::Principal) => entity("User"),
        ExprKind::Slot(SlotId::Resource) => entity("Organization"),
        ExprKind::Unknown(_) => Type::Never,
        ExprKind::If { then_expr, else_expr, .. } => match (infer(then_expr), infer(else_expr)) {
            (Type::Bool(x), Type::Bool(y)) => {
                Type::Bool(if x == y { x } else { BoolType::AnyBool })
            }
            (t, _) => t,
        },
        ExprKind::And { .. } | ExprKind::Or { .. } => boolean(),
        ExprKind::UnaryApp { op: UnaryOp::Not, arg } => match infer(arg) {
            Type::Bool(BoolType::True) => just(false),
            Type::Bool(BoolType::False) => just(true),
            _ => boolean(),
        },
        ExprKind::UnaryApp { op: UnaryOp::Neg, .. } => Type::Long,
        ExprKind::UnaryApp { op: UnaryOp::IsEmpty, .. } => boolean(),
        ExprKind::BinaryApp { op, arg1, arg2 } => match op {
            BinaryOp::Add | BinaryOp::Sub | BinaryOp::Mul => Type::Long,
            BinaryOp::GetTag => Type::String,
            BinaryOp::Eq => match (arg1.expr_kind(), arg2.expr_kind()) {
                (ExprKind::Lit(x), ExprKind::Lit(y)) => just(x == y),
                (ExprKind::Var(Var::Action), ExprKind::Lit(Prim::EntityUid(u))) => {
                    just(u.eid == "get")
                }
                _ => match (entity_name(&infer(arg1)), entity_name(&infer(arg2))) {
                    (Some(x), Some(y)) if x != y => just(false),
                    _ => boolean(),
                },
            },
            BinaryOp::In => match entity_name(&infer(arg2)) {
                Some("Document") => just(false),
                _ => boolean(),
            },
            _ => boolean(),
        },
        ExprKind::ExtensionFunctionApp { fn_name, .. } => match fn_name.as_str() {
            "toDays" => Type::Long,
            "iferror" => boolean(),
            other => Type::Extension(other.to_string()),
        },
        ExprKind::GetAttr { expr, attr } => match (infer(expr), attr.as_str()) {
            (Type::RecordOf(fields), _) => {
                fields.iter().find(|f| f.0 == *attr).unwrap().1.dup()
            }
            (_, "foo") => boolean(),
            (_, "str") => Type::String,
            (_, "num") => Type::Long,
            (_, "period") => Type::Extension("duration".to_string()),
            (_, "set") => Type::SetOf(Some(Arc::new(Type::String))),
            (_, other) => panic!("no attribute {other}"),
        },
        ExprKind::HasAttr { .. } | ExprKind::Like { .. } => boolean(),
        ExprKind::Is { expr, entity_type } => {
            just(entity_name(&infer(expr)) == Some(entity_type.as_str()))
        }
        ExprKind::SetLit(es) => Type::SetOf(es.first().map(|x| Arc::new(infer(x)))),
        ExprKind::Record(fields) => Type::RecordOf(Arc::new(
            fields.iter().map(|(k, v)| (k.clone(), infer(v), true)).collect(),
        )),
    }
}

fn typed(e: &Expr<()>) -> Expr<Option<Type>> {
    let arc = |x: &Arc<Expr<()>>| Arc::new(typed(x));
    let all = |xs: &Vec<Expr<()>>| Arc::new(xs.iter().map(typed).collect::<Vec<_>>());
    let kind = match e.expr_kind() {
        ExprKind::Lit(p) => ExprKind::Lit(p.dup()),
        ExprKind::Var(v) => ExprKind::Var(*v),
        ExprKind::Slot(s) => ExprKind::Slot(*s),
        ExprKind::Unknown(u) => ExprKind::Unknown(u.clone()),
        ExprKind::If { test_expr, then_expr, else_expr } => ExprKind::If {
            test_expr: arc(test_expr),
            then_expr: arc(then_expr),
            else_expr: arc(else_expr),
        },
        ExprKind::And { left, right } => ExprKind::And { left: arc(left), right: arc(right) },
        ExprKind::Or { left, right } => ExprKind::Or { left: arc(left), right: arc(right) },
        ExprKind::UnaryApp { op, arg } => ExprKind::UnaryApp { op: *op, arg: arc(arg) },
        ExprKind::BinaryApp { op, arg1, arg2 } => {
            ExprKind::BinaryApp { op: *op, arg1: arc(arg1), arg2: arc(arg2) }
        }
        ExprKind::ExtensionFunctionApp { fn_name, args } => {
            ExprKind::ExtensionFunctionApp { fn_name: fn_name.clone(), args: all(args) }
        }
        ExprKind::GetAttr { expr, attr } => {
            ExprKind::GetAttr { expr: arc(expr), attr: attr.clone() }
        }
        ExprKind::HasAttr { expr, attr } => {
            ExprKind::HasAttr { expr: arc(expr), attr: attr.clone() }
        }
        ExprKind::Like { expr, pattern } => {
            ExprKind::Like { expr: arc(expr), pattern: pattern.clone() }
        }
        ExprKind::Is { expr, entity_type } => {
            ExprKind::Is { expr: arc(expr), entity_type: entity_type.clone() }
        }
        ExprKind::SetLit(es) => ExprKind::SetLit(all(es)),
        ExprKind::Record(fields) => ExprKind::Record(Arc::new(
            fields.iter().map(|(k, v)| (k.clone(), typed(v))).collect(),
        )),
    };
    Expr { kind, loc: e.loc, data: Some(infer(e)) }
}

fn parse_residual(text: &str) -> Residual {
    Residual::try_from_typed_expr(&typed(&expr(text)), &SlotEnv::new()).unwrap()
}

// ---------------------------------------------------------------------------
// Conversion

#[test]
fn slot_to_residual() {
    let env = SlotEnv {
        principal: Some(EntityUid::new("User", "alice")),
        resource: Some(EntityUid::new("Organization", "org")),
    };
    let t = typed(&expr("principal == ?principal && resource in ?resource"));
    assert_eq!(
        Residual::try_from_typed_expr(&t, &env).unwrap().to_expr(),
        expr(r#"principal == User::"alice" && resource in Organization::"org""#)
    );
}

#[test]
fn to_residual_missing_slot() {
    let env = SlotEnv::new();
    for text in ["principal in ?principal", "resource in ?resource"] {
        assert!(matches!(
            Residual::try_from_typed_expr(&typed(&expr(text)), &env),
            Err(ExprToResidualError::UnlinkedSlot { .. })
        ));
    }
}

#[test]
fn to_residual_needs_types() {
    let mut t = typed(&expr("principal.foo && true"));
    t.data = None;
    assert!(matches!(
        Residual::try_from_typed_expr(&t, &SlotEnv::new()),
        Err(ExprToResidualError::MissingTypeAnnotation)
    ));
}

#[test]
fn to_residual_refuses_unknowns() {
    let unknown = Expr {
        kind: ExprKind::Unknown("u".to_string()),
        loc: None,
        data: Some(Type::Long),
    };
    assert!(matches!(
        Residual::try_from_typed_expr(&unknown, &SlotEnv::new()),
        Err(ExprToResidualError::UnknownNotSupported)
    ));
}

fn assert_eq_expr(text: &str) {
    let e = expr(text);
    let e2 = parse_residual(text).to_expr();
    assert!(e == e2, "{} and {}", show(&e), show(&e2));
}

#[test]
fn to_expr() {
    assert_eq_expr(r#"User::"alice".foo && User::"jane".foo"#);
    assert_eq_expr(r#"User::"alice".foo || User::"jane".foo"#);
    assert_eq_expr(r#"[User::"jane".foo].contains(User::"jane".foo)"#);
    assert_eq_expr(r#"User::"alice" has foo"#);
    assert_eq_expr(r#"(if User::"alice".foo then User::"bob" else User::"jane").foo"#);
    assert_eq_expr(r#""foo" like "bar""#);
    assert_eq_expr(r#"principal in [User::"alice", User::"jane"]"#);
    assert_eq_expr(
        r#"(if principal.foo then {a: User::"alice", b: true} else {a: User::"jane", b: false}).a.foo"#,
    );
}

#[test]
fn residuals_of_each_sort() {
    let t = parse_residual("true");
    assert!(t.is_true() && !t.is_false() && t.is_concrete() && !t.is_partial());
    let f = parse_residual("false");
    assert!(f.is_false() && !f.is_true());
    let p = parse_residual("principal.foo");
    assert!(p.is_partial() && !p.is_concrete() && !p.is_error());
    assert!(p.into_value().is_err());
    assert!(t.into_value().is_ok());
    let e = Residual::Error(boolean());
    assert!(e.is_error() && !e.is_partial());
    assert_eq!(e.to_expr(), expr("error()"));
    let policy = parse_residual("principal.foo").to_policy(
        "p".to_string(),
        Effect::Forbid,
        Arc::new(vec![]),
    );
    assert_eq!(policy.effect, Effect::Forbid);
    assert_eq!(policy.id, "p");
    assert_eq!(**policy.when.as_ref().unwrap(), expr("principal.foo"));
}

// ---------------------------------------------------------------------------
// Errors

#[test]
fn test_can_error_assuming_well_formed() {
    // Most common LHS, the policy header
    assert_eq!(
        parse_residual(
            r#"
            principal is User &&
            principal in Organization::"foo" &&
            action == Action::"get" &&
            resource is Document &&
            resource in Organization::"foo"
            "#
        )
        .can_error_assuming_well_formed(),
        false
    );
    assert_eq!(
        parse_residual(r#"User::"jane" in [User::"foo", User::"jane"]"#)
            .can_error_assuming_well_formed(),
        false
    );
    assert_eq!(
        parse_residual(r#"principal has foo || principal.hasTag("foo")"#)
            .can_error_assuming_well_formed(),
        false
    );
    assert_eq!(
        parse_residual(r#"principal == resource && !(principal in Organization::"foo")"#)
            .can_error_assuming_well_formed(),
        false
    );
    assert_eq!(
        parse_residual(
            r#"
            if principal.hasTag("foo") then
                principal in Organization::"foo"
            else principal in Organization::"bar"
            "#
        )
        .can_error_assuming_well_formed(),
        false
    );
    assert_eq!(
        parse_residual(
            r#"
            1 == 2 ||
            !("a" == "b") &&
            ["a", "b"].contains("a") &&
            !["a", "b"].containsAll(["a"]) &&
            ["a", "b"].containsAny(["a"])
            "#
        )
        .can_error_assuming_well_formed(),
        false
    );
    assert_eq!(
        parse_residual(r#"{a: true, b: false}["a"] && false"#).can_error_assuming_well_formed(),
        true
    );
    assert_eq!(
        parse_residual(r#"User::"jane".str like "jane-*""#).can_error_assuming_well_formed(),
        true
    );
    assert_eq!(
        parse_residual(
            r#"if principal.num > 0 then User::"jane".num >= 100 else User::"foo".num == 1"#
        )
        .can_error_assuming_well_formed(),
        true
    );
    assert_eq!(
        parse_residual(r#"principal.hasTag("foo") && principal.getTag("foo") == "bar""#)
            .can_error_assuming_well_formed(),
        true
    );
    assert_eq!(
        parse_residual(
            r#"
            !principal.set.isEmpty() && (
                principal.set.contains("foo") ||
                principal.set.containsAll(["foo", "bar"]) ||
                principal.set.containsAny(["foo", "bar"])
            )"#
        )
        .can_error_assuming_well_formed(),
        true
    );
    assert_eq!(
        parse_residual(r#"principal.num + 1 == 100 || true"#).can_error_assuming_well_formed(),
        true
    );
    assert_eq!(
        parse_residual(r#"if principal.foo then principal.num - 1 == 100 else true"#)
            .can_error_assuming_well_formed(),
        true
    );
    assert_eq!(
        parse_residual(r#"principal.foo && principal.num * 2 == 100"#)
            .can_error_assuming_well_formed(),
        true
    );
    assert_eq!(
        parse_residual(r#"principal.foo || -principal.num == 100"#)
            .can_error_assuming_well_formed(),
        true
    );
    assert_eq!(
        parse_residual(r#"principal.num == 1 && principal.period < (if principal.foo then duration("1d") else duration("2d"))"#).can_error_assuming_well_formed(),
        true
    );
    // in reality, this specific function could most likely never error
    // in the future, we might want to be more precise about exactly what functions could produce errors
    assert_eq!(
        parse_residual(r#"principal.period.toDays() == 365"#).can_error_assuming_well_formed(),
        true
    );
    assert_eq!(
        Residual::Error(boolean()).can_error_assuming_well_formed(),
        true
    );
}

// ---------------------------------------------------------------------------
// Literal entities

fn uids(text: &str) -> Vec<String> {
    let mut out: Vec<String> =
        parse_residual(text).all_literal_uids().iter().map(|u| u.eid.clone()).collect();
    out.sort();
    out.dedup();
    out
}

#[test]
fn var() {
    assert!(uids("principal.foo").is_empty());
}

#[test]
fn conditional() {
    assert_eq!(
        uids(r#"if User::"alice".foo then User::"bob".foo else User::"jane".foo"#),
        ["alice", "bob", "jane"]
    );
}

#[test]
fn and() {
    assert_eq!(uids(r#"User::"alice".foo && User::"jane".foo"#), ["alice", "jane"]);
}

#[test]
fn set() {
    assert_eq!(uids(r#"principal in [User::"alice", User::"jane"]"#), ["alice", "jane"]);
}

#[test]
fn record() {
    assert_eq!(
        uids(r#"(if principal.foo then {a: User::"alice", b: true} else {a: User::"jane", b: false}).a.foo"#),
        ["alice", "jane"]
    );
}

// ---------------------------------------------------------------------------
// Possible outcomes

fn outcomes_of(residual: &Residual) -> Vec<EvaluationOutcome> {
    let set = residual.possible_bool_outcomes();
    let found: Vec<EvaluationOutcome> =
        [Tr, Fa, Er].into_iter().filter(|o| set.contains(*o)).collect();
    assert_eq!(set.len(), found.len());
    found
}

/// Asserts that `text`, typechecked, has exactly the given possible outcomes.
fn assert_outcomes(text: &str, expected: &[EvaluationOutcome]) {
    let residual = parse_residual(text);
    assert_eq!(
        outcomes_of(&residual),
        expected,
        "unexpected outcomes for `{text}` (type {:?})",
        residual.ty()
    );
}

#[test]
fn concrete_booleans() {
    assert_outcomes("true", &[Tr]);
    assert_outcomes("false", &[Fa]);
}

#[test]
fn concrete_non_booleans() {
    assert_outcomes("1", &[Er]);
    assert_outcomes(r#""foo""#, &[Er]);
    assert_outcomes("[1, 2]", &[Er]);
    assert_outcomes("{a: 1}", &[Er]);
    assert_outcomes(r#"User::"alice""#, &[Er]);
}

#[test]
fn partial_non_booleans() {
    assert_outcomes("principal", &[Er]);
    assert_outcomes("principal.num", &[Er]);
    assert_outcomes("principal.str", &[Er]);
    assert_outcomes("principal.set", &[Er]);
    assert_outcomes("-principal.num", &[Er]);
    assert_outcomes("principal.num + 1", &[Er]);
    assert_outcomes("[principal.str]", &[Er]);
    assert_outcomes("{a: principal.num}", &[Er]);
    assert_outcomes("if principal.foo then 1 else 2", &[Er]);
}

#[test]
fn leaves_without_errors() {
    // `has` on an entity missing from the store is `false`, not an
    // error, so `HasAttr` only errors if its subexpression can.
    assert_outcomes("principal has foo", &[Tr, Fa]);
    assert_outcomes("principal has str", &[Tr, Fa]);
    assert_outcomes(r#"principal.hasTag("t")"#, &[Tr, Fa]);
    // `in` consults the entity hierarchy but never errors.
    assert_outcomes(r#"principal in Organization::"o""#, &[Tr, Fa]);
    assert_outcomes(r#"resource in Organization::"o""#, &[Tr, Fa]);
    assert_outcomes(
        r#"principal in [Organization::"o", Organization::"p"]"#,
        &[Tr, Fa],
    );
    assert_outcomes(r#"[true, false].contains(true)"#, &[Tr, Fa]);
    assert_outcomes(r#"[1, 2].containsAll([1])"#, &[Tr, Fa]);
    assert_outcomes(r#"[1, 2].containsAny([1])"#, &[Tr, Fa]);
}

#[test]
fn leaves_with_errors() {
    // `GetAttr` errors if the entity is missing from the store.
    assert_outcomes("principal.foo", &[Tr, Fa, Er]);
    // Arithmetic can overflow.
    assert_outcomes("principal.num + 1 == 2", &[Tr, Fa, Er]);
    assert_outcomes("principal.num - 1 == 2", &[Tr, Fa, Er]);
    assert_outcomes("principal.num * 2 == 2", &[Tr, Fa, Er]);
    assert_outcomes("-principal.num == 2", &[Tr, Fa, Er]);
    // `getTag` errors if the entity is missing from the store.
    assert_outcomes(
        r#"principal.hasTag("t") && principal.getTag("t") == "x""#,
        &[Tr, Fa, Er],
    );
    // Extension functions are assumed to be able to error.
    assert_outcomes("principal.period.toDays() == 1", &[Tr, Fa, Er]);
    // `like`/`isEmpty`/`contains` inherit their subexpression's errors.
    assert_outcomes(r#"principal.str like "a*""#, &[Tr, Fa, Er]);
    assert_outcomes("principal.set.isEmpty()", &[Tr, Fa, Er]);
    assert_outcomes(r#"principal.set.contains("a")"#, &[Tr, Fa, Er]);
    // Sets and records propagate their elements' errors.
    assert_outcomes("[principal.foo, true].contains(true)", &[Tr, Fa, Er]);
    assert_outcomes("{a: principal.foo}.a", &[Tr, Fa, Er]);
}

#[test]
fn singleton_boolean_types() {
    // `principal` is declared to be a `User` by the request environment.
    assert_outcomes("principal is User", &[Tr]);
    assert_outcomes("principal is Document", &[Fa]);
    assert_outcomes("resource is Document", &[Tr]);
    assert_outcomes("resource is User", &[Fa]);
    // The action is concrete in the request environment.
    assert_outcomes(r#"action == Action::"get""#, &[Tr]);
    // A `User` can never be a descendant of a `Document`.
    assert_outcomes(r#"principal in Document::"d""#, &[Fa]);
    assert_outcomes("principal == resource", &[Fa]);
    // Literal comparisons are folded by the typechecker.
    assert_outcomes("1 == 1", &[Tr]);
    assert_outcomes(r#""a" == "b""#, &[Fa]);
}

#[test]
fn singleton_boolean_types_can_still_error() {
    // `{a: true}` is a record literal, so the attribute's type is
    // `Bool(True)` -- but `GetAttr` is still treated as able to error.
    assert_outcomes("{a: true}.a", &[Tr, Er]);
    assert_outcomes("{a: false}.a", &[Fa, Er]);
}

#[test]
fn and_short_circuits() {
    // A `false` left side means the right side is never evaluated, so
    // its outcomes -- errors included -- cannot occur.
    assert_outcomes("false && principal.foo", &[Fa]);
    assert_outcomes("false && principal.num + 1 == 2", &[Fa]);
    // A `true` left side hands the outcome to the right side.
    assert_outcomes("true && principal.foo", &[Tr, Fa, Er]);
    assert_outcomes("true && true", &[Tr]);
    assert_outcomes("true && false", &[Fa]);
    // The left side is always evaluated, so its errors always survive.
    assert_outcomes("principal.foo && true", &[Tr, Fa, Er]);
    assert_outcomes("principal.foo && false", &[Fa, Er]);
    // Both sides contribute.
    assert_outcomes(
        r#"principal in Organization::"o" && principal.foo"#,
        &[Tr, Fa, Er],
    );
    assert_outcomes(
        r#"principal.foo && principal in Organization::"o""#,
        &[Tr, Fa, Er],
    );
    // A left side that is statically `true` is transparent.
    assert_outcomes("principal is User && principal.foo", &[Tr, Fa, Er]);
    // A left side that is statically `false` prunes the right side,
    // even when that right side can error.
    assert_outcomes("principal is Document && principal.foo", &[Fa]);
}

#[test]
fn or_short_circuits() {
    // A `true` left side means the right side is never evaluated.
    assert_outcomes("true || principal.foo", &[Tr]);
    assert_outcomes("true || principal.num + 1 == 2", &[Tr]);
    // A `false` left side hands the outcome to the right side.
    assert_outcomes("false || principal.foo", &[Tr, Fa, Er]);
    assert_outcomes("false || true", &[Tr]);
    assert_outcomes("false || false", &[Fa]);
    // The left side is always evaluated, so its errors always survive.
    assert_outcomes("principal.foo || true", &[Tr, Er]);
    assert_outcomes("principal.foo || false", &[Tr, Fa, Er]);
    // A left side that is statically `true` prunes the right side,
    // even when that right side can error.
    assert_outcomes("resource is Document || principal.foo", &[Tr]);
    // A left side that is statically `false` is transparent.
    assert_outcomes("principal is Document || principal.foo", &[Tr, Fa, Er]);
}

#[test]
fn if_takes_only_the_reachable_branches() {
    // A constant test prunes the other branch entirely.
    assert_outcomes("if true then false else principal.foo", &[Fa]);
    assert_outcomes("if false then principal.foo else true", &[Tr]);
    assert_outcomes("if true then principal.foo else true", &[Tr, Fa, Er]);
    assert_outcomes("if principal is Document then principal.foo else true", &[Tr]);
    // A test that cannot error but can go either way reaches both
    // branches -- and contributes neither `True` nor `False` itself.
    assert_outcomes(
        r#"if principal in Organization::"o" then true else true"#,
        &[Tr],
    );
    assert_outcomes(
        r#"if principal in Organization::"o" then false else false"#,
        &[Fa],
    );
    assert_outcomes(
        r#"if principal in Organization::"o" then true else false"#,
        &[Tr, Fa],
    );
    assert_outcomes(
        r#"if principal in Organization::"o" then principal.foo else false"#,
        &[Tr, Fa, Er],
    );
    // A test that can error contributes `Error`.
    assert_outcomes("if principal.foo then true else true", &[Tr, Er]);
    assert_outcomes("if principal.foo then false else false", &[Fa, Er]);
    assert_outcomes("if principal.foo then true else false", &[Tr, Fa, Er]);
}

#[test]
fn not_negates_values_but_not_errors() {
    assert_outcomes("!true", &[Fa]);
    assert_outcomes("!false", &[Tr]);
    assert_outcomes("!principal.foo", &[Tr, Fa, Er]);
    assert_outcomes("!(principal is User)", &[Fa]);
    assert_outcomes("!(principal is Document)", &[Tr]);
    assert_outcomes("!(if principal.foo then true else true)", &[Fa, Er]);
    assert_outcomes("!(if principal.foo then false else false)", &[Tr, Er]);
    assert_outcomes("!!(if principal.foo then false else false)", &[Fa, Er]);
}

#[test]
fn policy_scope_never_errors() {
    assert_outcomes(
        r#"
        principal is User &&
        principal in Organization::"foo" &&
        action == Action::"get" &&
        resource is Document &&
        resource in Organization::"foo"
        "#,
        &[Tr, Fa],
    );
}

#[test]
fn guarded_access_is_over_approximated() {
    assert_outcomes("principal has foo && principal.foo", &[Tr, Fa, Er]);
    assert_outcomes(
        r#"principal.hasTag("t") && principal.getTag("t") == "x""#,
        &[Tr, Fa, Er],
    );
}

#[test]
fn nested_expressions() {
    // `resource is Document` is statically `true`, so the `||` can only
    // be `True` or `Error`, and `principal is User` is transparent.
    assert_outcomes(
        r#"principal is User && (principal.foo || resource is Document)"#,
        &[Tr, Er],
    );
    assert_outcomes(
        r#"principal in Organization::"o" && (resource is Document || principal.foo)"#,
        &[Tr, Fa],
    );
    assert_outcomes(
        r#"if principal is User then (if principal is Document then principal.foo else true) else principal.foo"#,
        &[Tr],
    );
}

#[test]
fn correlated_leaves_are_not_tracked() {
    // Never actually `True`.
    assert_outcomes("principal.foo && !principal.foo", &[Tr, Fa, Er]);
    // Never actually `False`.
    assert_outcomes("principal.foo || !principal.foo", &[Tr, Fa, Er]);
    // The guard makes the `GetAttr` safe, but `can_error_assuming_well_formed`
    // is purely structural and does not know that.
    assert_outcomes("principal has foo && principal.foo", &[Tr, Fa, Er]);
}

#[test]
fn error_residual() {
    for ty in [boolean(), just(true), just(false), Type::Long, Type::Never] {
        assert_eq!(outcomes_of(&Residual::Error(ty)), [Er]);
    }
}

fn concrete(b: bool) -> Residual {
    parse_residual(if b { "true" } else { "false" })
}

fn partial(kind: ResidualKind) -> Residual {
    Residual::Partial { kind, ty: boolean() }
}

fn both(left: Residual, right: Residual) -> Residual {
    partial(ResidualKind::And { left: Arc::new(left), right: Arc::new(right) })
}

fn either(left: Residual, right: Residual) -> Residual {
    partial(ResidualKind::Or { left: Arc::new(left), right: Arc::new(right) })
}

/// A leaf whose possible outcomes are exactly `{True, False, Error}`.
fn tfe() -> Residual {
    parse_residual("principal.foo")
}

/// `<residual> && <error>` can still be `False`.
#[test]
fn and_with_error_right() {
    assert_eq!(outcomes_of(&both(tfe(), Residual::Error(boolean()))), [Fa, Er]);
}

/// `<residual> || <error>` can still be `True`.
#[test]
fn or_with_error_right() {
    assert_eq!(outcomes_of(&either(tfe(), Residual::Error(boolean()))), [Tr, Er]);
}

#[test]
fn and_false_right_or_true_right() {
    assert_eq!(outcomes_of(&both(tfe(), concrete(false))), [Fa, Er]);
    assert_eq!(outcomes_of(&either(tfe(), concrete(true))), [Tr, Er]);
}

/// An erroring left side is never rescued by the right side.
#[test]
fn error_left() {
    assert_eq!(outcomes_of(&both(Residual::Error(boolean()), tfe())), [Er]);
    assert_eq!(outcomes_of(&either(Residual::Error(boolean()), tfe())), [Er]);
    assert_eq!(outcomes_of(&both(Residual::Error(boolean()), concrete(true))), [Er]);
}

/// A non-boolean left side errors before the right side is reached.
#[test]
fn non_boolean_left() {
    assert_eq!(outcomes_of(&both(parse_residual("1"), tfe())), [Er]);
    assert_eq!(outcomes_of(&either(parse_residual("1"), tfe())), [Er]);
}

/// `possible_bool_outcomes` strictly refines
/// `can_error_assuming_well_formed`: the latter is purely structural, so it
/// reports an error for `false && <can error>` even though the right side is
/// never evaluated.
#[test]
fn strictly_refines_can_error() {
    let residual = both(concrete(false), tfe());
    assert!(residual.can_error_assuming_well_formed());
    assert_eq!(outcomes_of(&residual), [Fa]);

    let residual = either(concrete(true), tfe());
    assert!(residual.can_error_assuming_well_formed());
    assert_eq!(outcomes_of(&residual), [Tr]);
}

/// For boolean residuals, a possible `Error` outcome always implies that
/// `can_error_assuming_well_formed` agrees.
#[test]
fn error_outcome_implies_can_error() {
    for text in EXPRS {
        let residual = parse_residual(text);
        if !matches!(residual.ty(), Type::Bool(_)) {
            continue;
        }
        assert!(
            !residual.possible_bool_outcomes().contains(Er)
                || residual.can_error_assuming_well_formed(),
            "`{text}` reports a possible error that `can_error_assuming_well_formed` denies"
        );
    }
}

/// Boolean expressions covering every residual kind.
const EXPRS: &[&str] = &[
    "true",
    "false",
    "principal is User",
    "principal is Document",
    "resource is Document",
    r#"action == Action::"get""#,
    "principal == resource",
    "principal has foo",
    "principal has str",
    "principal.foo",
    r#"principal.hasTag("t")"#,
    r#"principal.hasTag("t") && principal.getTag("t") == "x""#,
    r#"principal in Organization::"o""#,
    r#"resource in Organization::"o""#,
    r#"principal in [Organization::"o", Organization::"p"]"#,
    r#"principal in Document::"d""#,
    r#"principal.str like "a*""#,
    r#"principal.str like "z*""#,
    "principal.num > 0",
    "principal.num + 1 > 0",
    "principal.num - 1 > 0",
    "principal.num * 2 > 0",
    "-principal.num > 0",
    "principal.set.isEmpty()",
    r#"principal.set.contains("a")"#,
    r#"principal.set.containsAll(["a"])"#,
    r#"principal.set.containsAny(["a", "z"])"#,
    "principal.period.toDays() == 1",
    "[principal.foo, true].contains(true)",
    "{a: principal.foo}.a",
    "{a: true}.a",
    "!principal.foo",
    "!(principal is User)",
    "false && principal.foo",
    "true && principal.foo",
    "principal.foo && true",
    "principal.foo && false",
    "principal is Document && principal.foo",
    "principal is User && principal.foo",
    "true || principal.foo",
    "false || principal.foo",
    "principal.foo || true",
    "principal.foo || false",
    "resource is Document || principal.foo",
    "principal is Document || principal.foo",
    "if principal.foo then true else true",
    "if principal.foo then false else false",
    "if principal.foo then true else false",
    r#"if principal in Organization::"o" then true else true"#,
    r#"if principal in Organization::"o" then principal.foo else false"#,
    "if true then principal.foo else true",
    "if false then principal.foo else true",
    "principal has foo && principal.foo",
    r#"principal is User && principal in Organization::"foo" && action == Action::"get" && resource is Document && resource in Organization::"foo""#,
    r#"principal is User && (principal.foo || resource is Document)"#,
    r#"principal in Organization::"o" && (resource is Document || principal.foo)"#,
    "principal.foo && !principal.foo",
    "principal.foo || !principal.foo",
];


// ---------------------------------------------------------------------------
// A brute-force reference: every leaf occurrence independently takes any of
// its outcomes

#[derive(Clone, Debug)]
enum Shape {
    Leaf(usize),
    Not(Box<Shape>),
    And(Box<Shape>, Box<Shape>),
    Or(Box<Shape>, Box<Shape>),
    If(Box<Shape>, Box<Shape>, Box<Shape>),
}

/// One residual realizing each non-empty subset of the three outcomes, paired
/// with that subset.
fn leaf_table() -> Vec<(Residual, Vec<EvaluationOutcome>)> {
    vec![
        (concrete(true), vec![Tr]),
        (concrete(false), vec![Fa]),
        (Residual::Error(boolean()), vec![Er]),
        (parse_residual(r#"resource in Organization::"o""#), vec![Tr, Fa]),
        (parse_residual("if principal.foo then true else true"), vec![Tr, Er]),
        (parse_residual("if principal.foo then false else false"), vec![Fa, Er]),
        (tfe(), vec![Tr, Fa, Er]),
    ]
}

fn to_residual(shape: &Shape) -> Residual {
    match shape {
        Shape::Leaf(i) => leaf_table().swap_remove(*i).0,
        Shape::Not(a) => partial(ResidualKind::UnaryApp {
            op: UnaryOp::Not,
            arg: Arc::new(to_residual(a)),
        }),
        Shape::And(a, b) => both(to_residual(a), to_residual(b)),
        Shape::Or(a, b) => either(to_residual(a), to_residual(b)),
        Shape::If(t, x, y) => partial(ResidualKind::If {
            test_expr: Arc::new(to_residual(t)),
            then_expr: Arc::new(to_residual(x)),
            else_expr: Arc::new(to_residual(y)),
        }),
    }
}

/// The leaves of a shape, from left to right.
fn leaves(shape: &Shape, out: &mut Vec<usize>) {
    match shape {
        Shape::Leaf(i) => out.push(*i),
        Shape::Not(a) => leaves(a, out),
        Shape::And(a, b) | Shape::Or(a, b) => {
            leaves(a, out);
            leaves(b, out);
        }
        Shape::If(t, x, y) => {
            leaves(t, out);
            leaves(x, out);
            leaves(y, out);
        }
    }
}

/// Short-circuiting evaluation; `at` counts the leaves passed.
fn run(shape: &Shape, assignment: &[EvaluationOutcome], at: &mut usize) -> EvaluationOutcome {
    match shape {
        Shape::Leaf(_) => {
            *at += 1;
            assignment[*at - 1]
        }
        Shape::Not(a) => match run(a, assignment, at) {
            Tr => Fa,
            Fa => Tr,
            Er => Er,
        },
        Shape::And(a, b) => {
            let (x, y) = (run(a, assignment, at), run(b, assignment, at));
            if x == Tr { y } else { x }
        }
        Shape::Or(a, b) => {
            let (x, y) = (run(a, assignment, at), run(b, assignment, at));
            if x == Fa { y } else { x }
        }
        Shape::If(t, x, y) => {
            let c = run(t, assignment, at);
            let (x, y) = (run(x, assignment, at), run(y, assignment, at));
            match c {
                Tr => x,
                Fa => y,
                Er => Er,
            }
        }
    }
}

fn check(shape: &Shape, sets: &[Vec<EvaluationOutcome>]) {
    let mut ls = Vec::new();
    leaves(shape, &mut ls);
    let mut all: Vec<Vec<EvaluationOutcome>> = vec![Vec::new()];
    for l in &ls {
        let mut next = Vec::new();
        for partial in &all {
            for o in &sets[*l] {
                let mut longer = partial.clone();
                longer.push(*o);
                next.push(longer);
            }
        }
        all = next;
    }
    let seen: Vec<EvaluationOutcome> = all.iter().map(|a| run(shape, a, &mut 0)).collect();
    let expected: Vec<EvaluationOutcome> =
        [Tr, Fa, Er].into_iter().filter(|o| seen.contains(o)).collect();
    assert_eq!(outcomes_of(&to_residual(shape)), expected, "mismatch for shape {shape:?}");
}

fn leaf_sets() -> Vec<Vec<EvaluationOutcome>> {
    leaf_table().into_iter().map(|(_, s)| s).collect()
}

#[test]
fn leaf_table_is_accurate() {
    for (residual, expected) in leaf_table() {
        assert_eq!(outcomes_of(&residual), expected, "{residual:?}");
    }
}

/// Every shape of depth at most one over the whole leaf table.
#[test]
fn exhaustive_depth_one() {
    let sets = leaf_sets();
    let n = sets.len();
    let leaf = |i: usize| Box::new(Shape::Leaf(i));
    for i in 0..n {
        check(&Shape::Leaf(i), &sets);
        check(&Shape::Not(leaf(i)), &sets);
        for j in 0..n {
            check(&Shape::And(leaf(i), leaf(j)), &sets);
            check(&Shape::Or(leaf(i), leaf(j)), &sets);
            for k in 0..n {
                check(&Shape::If(leaf(i), leaf(j), leaf(k)), &sets);
            }
        }
    }
}

/// A deterministic xorshift generator, so failures reproduce.
struct Rng(u64);

impl Rng {
    fn next(&mut self) -> u64 {
        self.0 ^= self.0 << 13;
        self.0 ^= self.0 >> 7;
        self.0 ^= self.0 << 17;
        self.0
    }

    fn below(&mut self, n: usize) -> usize {
        (self.next() % (n as u64)) as usize
    }
}

/// `budget` bounds the number of leaf occurrences.
fn gen(rng: &mut Rng, depth: usize, budget: usize, n: usize) -> Shape {
    if depth == 0 || budget <= 1 {
        return Shape::Leaf(rng.below(n));
    }
    match rng.below(6) {
        0 | 1 => Shape::Leaf(rng.below(n)),
        2 => Shape::Not(Box::new(gen(rng, depth - 1, budget, n))),
        3 => Shape::And(
            Box::new(gen(rng, depth - 1, budget / 2, n)),
            Box::new(gen(rng, depth - 1, budget - budget / 2, n)),
        ),
        4 => Shape::Or(
            Box::new(gen(rng, depth - 1, budget / 2, n)),
            Box::new(gen(rng, depth - 1, budget - budget / 2, n)),
        ),
        _ => Shape::If(
            Box::new(gen(rng, depth - 1, budget / 3, n)),
            Box::new(gen(rng, depth - 1, budget / 3, n)),
            Box::new(gen(rng, depth - 1, budget - 2 * (budget / 3), n)),
        ),
    }
}

#[test]
fn randomized_deep_shapes() {
    let sets = leaf_sets();
    let mut rng = Rng(0x2545_F491_4F6C_DD1D);
    for _ in 0..5000 {
        check(&gen(&mut rng, 4, 6, sets.len()), &sets);
    }
}

// ---------------------------------------------------------------------------
// What concrete evaluation produces

fn user(foo: bool, text: &str, num: i64, days: i64, set: &[&str], tags: &[&str], org: bool) -> Entity {
    Entity {
        attrs: vec![
            ("foo".to_string(), Val::Bool(foo)),
            ("str".to_string(), Val::Text(text.to_string())),
            ("num".to_string(), Val::Long(num)),
            ("period".to_string(), Val::Long(days)),
            (
                "set".to_string(),
                Val::SetOf(set.iter().map(|x| Val::Text(x.to_string())).collect()),
            ),
        ],
        tags: tags.iter().map(|t| ("t".to_string(), Val::Text(t.to_string()))).collect(),
        parents: if org { vec![name("Organization", "o")] } else { vec![] },
    }
}

/// Entity stores chosen to drive each expression down a different path:
/// attributes present and absent, `alice` in and out of the organization, tags
/// present and absent, entities missing from the store entirely, and values
/// that make arithmetic overflow.
fn stores() -> Vec<(&'static str, Store)> {
    let bare = |org: bool| Entity {
        attrs: vec![],
        tags: vec![],
        parents: if org { vec![name("Organization", "o")] } else { vec![] },
    };
    let of = |entities| Store {
        principal: name("User", "alice"),
        action: name("Action", "get"),
        resource: name("Document", "doc"),
        entities,
    };
    vec![
        (
            "complete",
            of(vec![
                (name("User", "alice"), user(true, "abc", 1, 1, &["a"], &["x"], true)),
                (name("Document", "doc"), bare(true)),
                (name("Organization", "o"), bare(false)),
            ]),
        ),
        (
            "other values",
            of(vec![
                (name("User", "alice"), user(false, "zzz", 0, 2, &[], &[], false)),
                (name("Document", "doc"), bare(false)),
            ]),
        ),
        (
            "overflowing num",
            of(vec![
                (name("User", "alice"), user(true, "abc", i64::MAX, 1, &["a"], &["y"], true)),
                (name("Organization", "o"), bare(false)),
            ]),
        ),
        // Nothing is in the store, so every attribute and tag access errors.
        ("empty", of(vec![])),
    ]
}

#[test]
fn predictions_cover_what_the_evaluator_produces() {
    let stores = stores();
    let mut witnessed: Vec<EvaluationOutcome> = Vec::new();
    for text in EXPRS {
        let residual = parse_residual(text);
        let predicted = outcomes_of(&residual);
        let e = residual.to_expr();
        for (store_name, store) in &stores {
            let observed = match eval(&e, store) {
                Ok(Val::Bool(true)) => Tr,
                Ok(Val::Bool(false)) => Fa,
                _ => Er,
            };
            assert!(
                predicted.contains(&observed),
                "`{text}` evaluated to {observed:?} against the `{store_name}` entity store, \
                 but only {predicted:?} was predicted"
            );
            witnessed.push(observed);
        }
    }
    // the stores exercise all three outcomes
    assert!([Tr, Fa, Er].iter().all(|o| witnessed.contains(o)));
}
