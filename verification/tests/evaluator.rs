//! The symbolic evaluator, the fold and the simplifier, end to end: with a
//! typechecker for one schema, a compiler whose terms are looked up again, and
//! a solver that tries every model of a finite family.

#![allow(dead_code)]

use std::cell::RefCell;
use std::sync::Arc;

use cedar_analysis::ast::{
    BinaryOp, Data, EntityUid, Expr, ExprKind, Loc, PatternElem, Prim, SlotId, UnaryOp, Var,
};
use cedar_analysis::dnf::{
    split_atoms, Dnf, DEFAULT_MAX_CUBES, DEFAULT_MAX_SPLIT_NODES,
};
use cedar_analysis::evaluator::assumptions::{
    EntityInfo, PartialEntity, PartialRequest, SymEntityData, SymRequest,
};
use cedar_analysis::evaluator::compile::{Compiled, EntityAttrs, SymEnv, TermType};
use cedar_analysis::evaluator::metadata::{erase_metadata, literal_of, with_default_metadata};
use cedar_analysis::evaluator::state::{Backend, CompiledSet, PolicyError};
use cedar_analysis::evaluator::term::Term;
use cedar_analysis::evaluator::{
    request_env_of, step, typed_of, EvaluationError, EvaluationMetadata, Evaluator, NodeOutcome,
    Prepared, QueryRecord, Request, Step, SymbolicFold,
};
use cedar_analysis::outcome::{EvaluationOutcome, Outcomes};
use cedar_analysis::policy::{
    ActionConstraint, Decision, Effect, EntityRef, Policy, PolicySet, ScopeConstraint,
};
use cedar_analysis::residual::Residual;
use cedar_analysis::semantics::Assumption;
use cedar_analysis::simplify::run::probe_error;
use cedar_analysis::simplify::{simplify, FindingKind, SimplifyError, SimplifyStep};
use cedar_analysis::slots::SlotEnv;
use cedar_analysis::typechecked::{
    Checked, PolicyCheck, Pretyped, StaticError, Typecheckable, TypecheckedPolicySet,
};
use cedar_analysis::types::{BoolType, RequestEnv, Schema, Type};
use EvaluationOutcome::{Error as Er, False as Fa, True as Tr};

// ---------------------------------------------------------------------------
// A reader and a printer for expressions

#[derive(Clone, Debug, PartialEq)]
enum Tok {
    Word(String),
    Num(i64),
    Text(String),
    Sym(String),
    Slot(String),
}

struct Reader {
    toks: Vec<(Tok, usize, usize)>,
    at: usize,
}

fn lex(text: &str) -> Vec<(Tok, usize, usize)> {
    let chars: Vec<(usize, char)> = text.char_indices().collect();
    let offset = |i: usize| chars.get(i).map_or(text.len(), |c| c.0);
    let mut out = Vec::new();
    let mut i: usize = 0;
    while i < chars.len() {
        let c = chars[i].1;
        let start = i;
        if c.is_whitespace() {
            i += 1;
            continue;
        }
        let tok = if c.is_alphabetic() || c == '_' {
            while i < chars.len() && (chars[i].1.is_alphanumeric() || chars[i].1 == '_') {
                i += 1;
            }
            Tok::Word(chars[start..i].iter().map(|c| c.1).collect())
        } else if c.is_ascii_digit() {
            while i < chars.len() && chars[i].1.is_ascii_digit() {
                i += 1;
            }
            let digits: String = chars[start..i].iter().map(|c| c.1).collect();
            Tok::Num(digits.parse().unwrap())
        } else if c == '"' {
            i += 1;
            let mut s = String::new();
            while chars[i].1 != '"' {
                if chars[i].1 == '\\' {
                    s.push('\\');
                    i += 1;
                }
                s.push(chars[i].1);
                i += 1;
            }
            i += 1;
            Tok::Text(s)
        } else if c == '?' {
            i += 1;
            while i < chars.len() && chars[i].1.is_alphabetic() {
                i += 1;
            }
            Tok::Slot(chars[start + 1..i].iter().map(|c| c.1).collect())
        } else {
            let two: String = chars[i..].iter().take(2).map(|c| c.1).collect();
            if ["&&", "||", "==", "!=", "<=", ">=", "::"].contains(&two.as_str()) {
                i += 2;
                Tok::Sym(two)
            } else {
                i += 1;
                Tok::Sym(c.to_string())
            }
        };
        out.push((tok, offset(start), offset(i)));
    }
    out
}

fn unescape(s: &str) -> String {
    let mut out = String::new();
    let mut chars = s.chars();
    while let Some(c) = chars.next() {
        out.push(if c == '\\' { chars.next().unwrap() } else { c });
    }
    out
}

fn pattern(s: &str) -> Vec<PatternElem> {
    let mut out = Vec::new();
    let mut chars = s.chars();
    while let Some(c) = chars.next() {
        out.push(match c {
            '\\' => PatternElem::Char(chars.next().unwrap()),
            '*' => PatternElem::Wildcard,
            c => PatternElem::Char(c),
        });
    }
    out
}

fn mk(kind: ExprKind<()>) -> Expr<()> {
    Expr { kind, loc: None, data: () }
}

fn un(op: UnaryOp, arg: Expr<()>) -> Expr<()> {
    mk(ExprKind::UnaryApp { op, arg: Arc::new(arg) })
}

fn bin(op: BinaryOp, a: Expr<()>, b: Expr<()>) -> Expr<()> {
    mk(ExprKind::BinaryApp { op, arg1: Arc::new(a), arg2: Arc::new(b) })
}

impl Reader {
    fn is(&self, s: &str) -> bool {
        match self.toks.get(self.at) {
            Some((Tok::Sym(x), _, _)) | Some((Tok::Word(x), _, _)) => x == s,
            _ => false,
        }
    }

    fn eat(&mut self, s: &str) -> bool {
        let yes = self.is(s);
        if yes {
            self.at += 1;
        }
        yes
    }

    fn need(&mut self, s: &str) {
        assert!(self.eat(s), "expected `{s}` at {:?}", self.toks.get(self.at));
    }

    fn word(&mut self) -> String {
        match self.toks[self.at].0.clone() {
            Tok::Word(w) => {
                self.at += 1;
                w
            }
            t => panic!("expected a name, got {t:?}"),
        }
    }

    /// `e` with the range of the text from token `from` up to here.
    fn located(&self, from: usize, e: Expr<()>) -> Expr<()> {
        let loc = Loc { start: self.toks[from].1, end: self.toks[self.at - 1].2 };
        Expr { kind: e.kind, loc: Some(loc), data: () }
    }

    fn expr(&mut self) -> Expr<()> {
        let from = self.at;
        if self.eat("if") {
            let c = self.expr();
            self.need("then");
            let a = self.expr();
            self.need("else");
            let b = self.expr();
            let e = mk(ExprKind::If {
                test_expr: Arc::new(c),
                then_expr: Arc::new(a),
                else_expr: Arc::new(b),
            });
            return self.located(from, e);
        }
        let mut e = self.conjunction();
        while self.eat("||") {
            let r = self.conjunction();
            e = mk(ExprKind::Or { left: Arc::new(e), right: Arc::new(r) });
            e = self.located(from, e);
        }
        e
    }

    fn conjunction(&mut self) -> Expr<()> {
        let from = self.at;
        let mut e = self.relation();
        while self.eat("&&") {
            let r = self.relation();
            e = mk(ExprKind::And { left: Arc::new(e), right: Arc::new(r) });
            e = self.located(from, e);
        }
        e
    }

    fn relation(&mut self) -> Expr<()> {
        let from = self.at;
        let l = self.sum();
        let e = if self.eat("==") {
            let r = self.sum();
            bin(BinaryOp::Eq, l, r)
        } else if self.eat("!=") {
            let r = self.sum();
            un(UnaryOp::Not, bin(BinaryOp::Eq, l, r))
        } else if self.eat("<=") {
            let r = self.sum();
            bin(BinaryOp::LessEq, l, r)
        } else if self.eat("<") {
            let r = self.sum();
            bin(BinaryOp::Less, l, r)
        } else if self.eat(">=") {
            let r = self.sum();
            un(UnaryOp::Not, bin(BinaryOp::Less, l, r))
        } else if self.eat(">") {
            let r = self.sum();
            un(UnaryOp::Not, bin(BinaryOp::LessEq, l, r))
        } else if self.eat("in") {
            let r = self.sum();
            bin(BinaryOp::In, l, r)
        } else if self.eat("has") {
            let attr = self.word();
            mk(ExprKind::HasAttr { expr: Arc::new(l), attr })
        } else if self.eat("is") {
            let entity_type = self.word();
            mk(ExprKind::Is { expr: Arc::new(l), entity_type })
        } else if self.eat("like") {
            let Tok::Text(s) = self.toks[self.at].0.clone() else { panic!("expected a pattern") };
            self.at += 1;
            mk(ExprKind::Like { expr: Arc::new(l), pattern: Arc::new(pattern(&s)) })
        } else {
            return l;
        };
        self.located(from, e)
    }

    fn sum(&mut self) -> Expr<()> {
        let from = self.at;
        let mut e = self.product();
        loop {
            let op = if self.eat("+") {
                BinaryOp::Add
            } else if self.eat("-") {
                BinaryOp::Sub
            } else {
                return e;
            };
            let r = self.product();
            e = bin(op, e, r);
            e = self.located(from, e);
        }
    }

    fn product(&mut self) -> Expr<()> {
        let from = self.at;
        let mut e = self.unary();
        while self.eat("*") {
            let r = self.unary();
            e = bin(BinaryOp::Mul, e, r);
            e = self.located(from, e);
        }
        e
    }

    fn unary(&mut self) -> Expr<()> {
        let from = self.at;
        if self.eat("!") {
            let e = self.unary();
            let e = un(UnaryOp::Not, e);
            return self.located(from, e);
        }
        if self.eat("-") {
            let e = self.unary();
            let e = un(UnaryOp::Neg, e);
            return self.located(from, e);
        }
        self.member()
    }

    fn args(&mut self, close: &str) -> Vec<Expr<()>> {
        let mut out = Vec::new();
        while !self.eat(close) {
            out.push(self.expr());
            if !self.is(close) {
                self.need(",");
            }
        }
        out
    }

    fn member(&mut self) -> Expr<()> {
        let from = self.at;
        let mut e = self.primary();
        loop {
            if self.eat("[") {
                let Tok::Text(attr) = self.toks[self.at].0.clone() else { panic!("expected a key") };
                self.at += 1;
                self.need("]");
                e = mk(ExprKind::GetAttr { expr: Arc::new(e), attr });
                e = self.located(from, e);
                continue;
            }
            if !self.eat(".") {
                return e;
            }
            let name = self.word();
            e = if self.eat("(") {
                let mut args = self.args(")");
                let op = match name.as_str() {
                    "isEmpty" => {
                        assert!(args.is_empty());
                        e = un(UnaryOp::IsEmpty, e);
                        e = self.located(from, e);
                        continue;
                    }
                    "toDays" => {
                        let args = Arc::new(vec![e]);
                        e = mk(ExprKind::ExtensionFunctionApp { fn_name: name, args });
                        e = self.located(from, e);
                        continue;
                    }
                    "contains" => BinaryOp::Contains,
                    "containsAll" => BinaryOp::ContainsAll,
                    "containsAny" => BinaryOp::ContainsAny,
                    "hasTag" => BinaryOp::HasTag,
                    "getTag" => BinaryOp::GetTag,
                    other => panic!("unknown method {other}"),
                };
                assert_eq!(args.len(), 1);
                bin(op, e, args.pop().unwrap())
            } else {
                mk(ExprKind::GetAttr { expr: Arc::new(e), attr: name })
            };
            e = self.located(from, e);
        }
    }

    fn primary(&mut self) -> Expr<()> {
        let from = self.at;
        let tok = self.toks[from].0.clone();
        self.at += 1;
        let e = match tok {
            Tok::Num(n) => mk(ExprKind::Lit(Prim::Long(n))),
            Tok::Text(s) => mk(ExprKind::Lit(Prim::String(unescape(&s)))),
            Tok::Slot(s) => mk(ExprKind::Slot(if s == "principal" {
                SlotId::Principal
            } else {
                SlotId::Resource
            })),
            Tok::Sym(s) => match s.as_str() {
                "(" => {
                    let e = self.expr();
                    self.need(")");
                    return e;
                }
                "[" => mk(ExprKind::SetLit(Arc::new(self.args("]")))),
                "{" => {
                    let mut fields = Vec::new();
                    while !self.eat("}") {
                        let key = self.word();
                        self.need(":");
                        fields.push((key, self.expr()));
                        if !self.is("}") {
                            self.need(",");
                        }
                    }
                    mk(ExprKind::record(fields).unwrap())
                }
                other => panic!("unexpected `{other}`"),
            },
            Tok::Word(w) => match w.as_str() {
                "true" => mk(ExprKind::Lit(Prim::Bool(true))),
                "false" => mk(ExprKind::Lit(Prim::Bool(false))),
                "principal" => mk(ExprKind::Var(Var::Principal)),
                "action" => mk(ExprKind::Var(Var::Action)),
                "resource" => mk(ExprKind::Var(Var::Resource)),
                "context" => mk(ExprKind::Var(Var::Context)),
                _ => {
                    let mut ty = w;
                    let mut uid = None;
                    while self.eat("::") {
                        if let Tok::Text(s) = self.toks[self.at].0.clone() {
                            self.at += 1;
                            uid = Some(unescape(&s));
                        } else {
                            ty = format!("{ty}::{}", self.word());
                        }
                    }
                    match uid {
                        Some(eid) => mk(ExprKind::Lit(Prim::EntityUid(EntityUid::new(&ty, &eid)))),
                        None => {
                            self.need("(");
                            let args = Arc::new(self.args(")"));
                            mk(ExprKind::ExtensionFunctionApp { fn_name: ty, args })
                        }
                    }
                }
            },
        };
        self.located(from, e)
    }
}

fn expr(text: &str) -> Expr<()> {
    let mut r = Reader { toks: lex(text), at: 0 };
    let e = r.expr();
    assert_eq!(r.at, r.toks.len(), "trailing text in `{text}`");
    e
}

fn quoted(s: &str) -> String {
    format!("\"{}\"", s.replace('\\', "\\\\").replace('"', "\\\""))
}

/// `e` as text, with every operand in brackets.
fn show<D>(e: &Expr<D>) -> String {
    let all = |es: &[Expr<D>]| es.iter().map(show).collect::<Vec<_>>().join(", ");
    match e.expr_kind() {
        ExprKind::Lit(Prim::Bool(b)) => b.to_string(),
        ExprKind::Lit(Prim::Long(n)) => n.to_string(),
        ExprKind::Lit(Prim::String(s)) => quoted(s),
        ExprKind::Lit(Prim::EntityUid(u)) => format!("{}::{}", u.ty, quoted(&u.eid)),
        ExprKind::Var(Var::Principal) => "principal".to_string(),
        ExprKind::Var(Var::Action) => "action".to_string(),
        ExprKind::Var(Var::Resource) => "resource".to_string(),
        ExprKind::Var(Var::Context) => "context".to_string(),
        ExprKind::Slot(SlotId::Principal) => "?principal".to_string(),
        ExprKind::Slot(SlotId::Resource) => "?resource".to_string(),
        ExprKind::Unknown(u) => format!("unknown({})", quoted(u)),
        ExprKind::If { test_expr, then_expr, else_expr } => format!(
            "(if {} then {} else {})",
            show(test_expr),
            show(then_expr),
            show(else_expr)
        ),
        ExprKind::And { left, right } => format!("({} && {})", show(left), show(right)),
        ExprKind::Or { left, right } => format!("({} || {})", show(left), show(right)),
        ExprKind::UnaryApp { op: UnaryOp::Not, arg } => format!("!{}", show(arg)),
        ExprKind::UnaryApp { op: UnaryOp::Neg, arg } => format!("-{}", show(arg)),
        ExprKind::UnaryApp { op: UnaryOp::IsEmpty, arg } => format!("{}.isEmpty()", show(arg)),
        ExprKind::BinaryApp { op, arg1, arg2 } => {
            let (a, b) = (show(arg1), show(arg2));
            match op {
                BinaryOp::Eq => format!("({a} == {b})"),
                BinaryOp::Less => format!("({a} < {b})"),
                BinaryOp::LessEq => format!("({a} <= {b})"),
                BinaryOp::Add => format!("({a} + {b})"),
                BinaryOp::Sub => format!("({a} - {b})"),
                BinaryOp::Mul => format!("({a} * {b})"),
                BinaryOp::In => format!("({a} in {b})"),
                BinaryOp::Contains => format!("{a}.contains({b})"),
                BinaryOp::ContainsAll => format!("{a}.containsAll({b})"),
                BinaryOp::ContainsAny => format!("{a}.containsAny({b})"),
                BinaryOp::GetTag => format!("{a}.getTag({b})"),
                BinaryOp::HasTag => format!("{a}.hasTag({b})"),
            }
        }
        ExprKind::ExtensionFunctionApp { fn_name, args } => format!("{fn_name}({})", all(args)),
        ExprKind::GetAttr { expr, attr } => format!("{}.{attr}", show(expr)),
        ExprKind::HasAttr { expr, attr } => format!("({} has {attr})", show(expr)),
        ExprKind::Like { expr, pattern } => {
            let p: String = pattern
                .iter()
                .map(|x| match x {
                    PatternElem::Wildcard => "*".to_string(),
                    PatternElem::Char('*') => "\\*".to_string(),
                    PatternElem::Char(c) => c.to_string(),
                })
                .collect();
            format!("({} like \"{p}\")", show(expr))
        }
        ExprKind::Is { expr, entity_type } => format!("({} is {entity_type})", show(expr)),
        ExprKind::SetLit(es) => format!("[{}]", all(es)),
        ExprKind::Record(fields) => {
            let fs: Vec<String> =
                fields.iter().map(|(k, v)| format!("{k}: {}", show(v))).collect();
            format!("{{{}}}", fs.join(", "))
        }
    }
}


// ---------------------------------------------------------------------------
// A concrete evaluator, as an oracle

#[derive(Clone, Debug, PartialEq)]
enum Val {
    Bool(bool),
    Long(i64),
    Text(String),
    Uid(String, String),
    SetOf(Vec<Val>),
    Rec(Vec<(String, Val)>),
}

/// An entity of a store.
#[derive(Clone, Debug)]
struct Entity {
    attrs: Vec<(String, Val)>,
    tags: Vec<(String, Val)>,
    parents: Vec<(String, String)>,
}

/// A request and the entities that exist.
struct Store {
    principal: (String, String),
    action: (String, String),
    resource: (String, String),
    admin: bool,
    entities: Vec<((String, String), Entity)>,
}

fn name(ty: &str, eid: &str) -> (String, String) {
    (ty.to_string(), eid.to_string())
}

impl Store {
    fn get(&self, ty: &str, eid: &str) -> Option<&Entity> {
        self.entities.iter().find(|(k, _)| k.0 == ty && k.1 == eid).map(|(_, e)| e)
    }

    fn is_in(&self, x: &(String, String), y: &(String, String)) -> bool {
        x == y
            || self
                .get(&x.0, &x.1)
                .is_some_and(|e| e.parents.iter().any(|p| self.is_in(p, y)))
    }
}

fn uid(p: &(String, String)) -> Val {
    Val::Uid(p.0.clone(), p.1.clone())
}

fn as_uid(v: &Val) -> Result<(String, String), String> {
    match v {
        Val::Uid(ty, eid) => Ok((ty.clone(), eid.clone())),
        _ => type_error(),
    }
}

fn field(fields: &[(String, Val)], key: &str) -> Option<Val> {
    fields.iter().find(|(k, _)| k == key).map(|(_, v)| v.clone())
}

fn type_error<X>() -> Result<X, String> {
    Err("type error".to_string())
}

fn as_bool(v: Val) -> Result<bool, String> {
    match v {
        Val::Bool(b) => Ok(b),
        _ => type_error(),
    }
}

fn as_long(v: Val) -> Result<i64, String> {
    match v {
        Val::Long(n) => Ok(n),
        _ => type_error(),
    }
}

fn as_set(v: Val) -> Result<Vec<Val>, String> {
    match v {
        Val::SetOf(s) => Ok(s),
        _ => type_error(),
    }
}

fn equal(a: &Val, b: &Val) -> bool {
    match (a, b) {
        (Val::SetOf(x), Val::SetOf(y)) => {
            x.iter().all(|v| y.iter().any(|u| equal(u, v)))
                && y.iter().all(|v| x.iter().any(|u| equal(u, v)))
        }
        (Val::Rec(x), Val::Rec(y)) => {
            x.len() == y.len()
                && x.iter().zip(y).all(|((k, v), (l, u))| k == l && equal(v, u))
        }
        _ => a == b,
    }
}

fn eval(e: &Expr<()>, s: &Store) -> Result<Val, String> {
    let b = |e: &Expr<()>| eval(e, s).and_then(as_bool);
    Ok(match e.expr_kind() {
        ExprKind::Lit(Prim::Bool(b)) => Val::Bool(*b),
        ExprKind::Lit(Prim::Long(n)) => Val::Long(*n),
        ExprKind::Lit(Prim::String(t)) => Val::Text(t.clone()),
        ExprKind::Lit(Prim::EntityUid(u)) => Val::Uid(u.ty.clone(), u.eid.clone()),
        ExprKind::Var(Var::Principal) => uid(&s.principal),
        ExprKind::Var(Var::Resource) => uid(&s.resource),
        ExprKind::Var(Var::Action) => uid(&s.action),
        ExprKind::Var(Var::Context) => {
            Val::Rec(vec![("admin".to_string(), Val::Bool(s.admin))])
        }
        ExprKind::If { test_expr, then_expr, else_expr } => {
            return if b(test_expr)? { eval(then_expr, s) } else { eval(else_expr, s) }
        }
        ExprKind::And { left, right } => Val::Bool(b(left)? && b(right)?),
        ExprKind::Or { left, right } => Val::Bool(b(left)? || b(right)?),
        ExprKind::UnaryApp { op: UnaryOp::Not, arg } => Val::Bool(!b(arg)?),
        ExprKind::UnaryApp { op: UnaryOp::Neg, arg } => Val::Long(
            as_long(eval(arg, s)?)?.checked_neg().ok_or("integer overflow")?,
        ),
        ExprKind::UnaryApp { op: UnaryOp::IsEmpty, arg } => {
            Val::Bool(as_set(eval(arg, s)?)?.is_empty())
        }
        ExprKind::BinaryApp { op, arg1, arg2 } => {
            let (x, y) = (eval(arg1, s)?, eval(arg2, s)?);
            match op {
                BinaryOp::Eq => Val::Bool(equal(&x, &y)),
                BinaryOp::Less => Val::Bool(as_long(x)? < as_long(y)?),
                BinaryOp::LessEq => Val::Bool(as_long(x)? <= as_long(y)?),
                BinaryOp::Add => Val::Long(
                    as_long(x)?.checked_add(as_long(y)?).ok_or("integer overflow")?,
                ),
                BinaryOp::Sub => Val::Long(
                    as_long(x)?.checked_sub(as_long(y)?).ok_or("integer overflow")?,
                ),
                BinaryOp::Mul => Val::Long(
                    as_long(x)?.checked_mul(as_long(y)?).ok_or("integer overflow")?,
                ),
                BinaryOp::Contains => Val::Bool(as_set(x)?.iter().any(|v| equal(v, &y))),
                BinaryOp::ContainsAll => {
                    let (x, y) = (as_set(x)?, as_set(y)?);
                    Val::Bool(y.iter().all(|v| x.iter().any(|u| equal(u, v))))
                }
                BinaryOp::ContainsAny => {
                    let (x, y) = (as_set(x)?, as_set(y)?);
                    Val::Bool(y.iter().any(|v| x.iter().any(|u| equal(u, v))))
                }
                BinaryOp::In => {
                    let x = as_uid(&x)?;
                    let ys = match y {
                        Val::SetOf(ys) => ys,
                        y => vec![y],
                    };
                    let ys = ys.iter().map(as_uid).collect::<Result<Vec<_>, _>>()?;
                    Val::Bool(ys.iter().any(|y| s.is_in(&x, y)))
                }
                BinaryOp::GetTag | BinaryOp::HasTag => {
                    let (ty, eid) = as_uid(&x)?;
                    let Val::Text(key) = y else { return type_error() };
                    let found = s.get(&ty, &eid).and_then(|e| field(&e.tags, &key));
                    match op {
                        BinaryOp::HasTag => Val::Bool(found.is_some()),
                        _ => found.ok_or(format!("does not have the tag `{key}`"))?,
                    }
                }
            }
        }
        ExprKind::ExtensionFunctionApp { fn_name, args } => match fn_name.as_str() {
            "iferror" => match eval(&args[0], s) {
                Err(_) => Val::Bool(b(&args[1])?),
                Ok(v) => Val::Bool(as_bool(v)?),
            },
            "toDays" => eval(&args[0], s)?,
            "duration" => match eval(&args[0], s)? {
                Val::Text(t) => Val::Long(t.trim_end_matches('d').parse().unwrap()),
                _ => return type_error(),
            },
            _ => return Err("an error".to_string()),
        },
        ExprKind::GetAttr { expr, attr } => {
            let fields = match eval(expr, s)? {
                Val::Rec(fields) => fields,
                Val::Uid(ty, eid) => s.get(&ty, &eid).ok_or("no such entity")?.attrs.clone(),
                _ => return type_error(),
            };
            field(&fields, attr).ok_or(format!("does not have the attribute `{attr}`"))?
        }
        ExprKind::HasAttr { expr, attr } => match eval(expr, s)? {
            Val::Rec(fields) => Val::Bool(field(&fields, attr).is_some()),
            Val::Uid(ty, eid) => {
                Val::Bool(s.get(&ty, &eid).is_some_and(|e| field(&e.attrs, attr).is_some()))
            }
            _ => return type_error(),
        },
        ExprKind::Like { expr, pattern } => match eval(expr, s)? {
            Val::Text(t) => Val::Bool(wildcard_match(pattern, &t)),
            _ => return type_error(),
        },
        ExprKind::Is { expr, entity_type } => match eval(expr, s)? {
            Val::Uid(ty, _) => Val::Bool(ty == *entity_type),
            _ => return type_error(),
        },
        ExprKind::SetLit(es) => {
            Val::SetOf(es.iter().map(|x| eval(x, s)).collect::<Result<Vec<_>, _>>()?)
        }
        ExprKind::Record(fields) => Val::Rec(
            fields
                .iter()
                .map(|(k, v)| Ok((k.clone(), eval(v, s)?)))
                .collect::<Result<Vec<_>, String>>()?,
        ),
        ExprKind::Slot(_) | ExprKind::Unknown(_) => return type_error(),
    })
}

fn wildcard_match(pattern: &[PatternElem], text: &str) -> bool {
    let chars: Vec<char> = text.chars().collect();
    matches_from(pattern, &chars)
}

fn matches_from(p: &[PatternElem], t: &[char]) -> bool {
    match p.first() {
        None => t.is_empty(),
        Some(PatternElem::Char(c)) => t.first() == Some(c) && matches_from(&p[1..], &t[1..]),
        Some(PatternElem::Wildcard) => (0..=t.len()).any(|i| matches_from(&p[1..], &t[i..])),
    }
}


// ---------------------------------------------------------------------------
// The schema and its typechecker

fn env(principal: &str, action: &str, resource: &str) -> RequestEnv {
    RequestEnv {
        principal: principal.to_string(),
        action: EntityUid::new("Action", action),
        resource: resource.to_string(),
    }
}

fn view() -> RequestEnv {
    env("User", "view", "Document")
}

fn edit() -> RequestEnv {
    env("User", "edit", "Document")
}

fn admin() -> RequestEnv {
    env("Group", "admin", "Document")
}

fn schema_of(text: &str, envs: Vec<RequestEnv>) -> Arc<Schema> {
    let actions = envs.iter().map(|e| e.action.dup()).collect();
    Arc::new(Schema::new(text.to_string(), envs, actions))
}

fn schema() -> Arc<Schema> {
    schema_of("schema", vec![view(), edit(), admin()])
}

fn two_envs() -> Arc<Schema> {
    schema_of("two", vec![view(), edit()])
}

fn boolean() -> Type {
    Type::Bool(BoolType::AnyBool)
}

fn just(b: bool) -> Type {
    Type::Bool(if b { BoolType::True } else { BoolType::False })
}

fn entity(ty: &str) -> Type {
    Type::Entity(Arc::new(vec![ty.to_string()]))
}

fn attr_type(ty: &Type, attr: &str) -> Result<Type, String> {
    let unknown = || Err(format!("no attribute {attr}"));
    match ty {
        Type::Entity(names) => match (names[0].as_str(), attr) {
            ("User", "name") | ("User", "nick") => Ok(Type::String),
            ("User", "active") | ("User", "a") | ("User", "b") | ("User", "flag") => Ok(boolean()),
            ("User", "age") => Ok(Type::Long),
            ("Document", "protected") | ("Doc", "protected") => Ok(boolean()),
            ("Document", "owner") | ("Doc", "owner") => Ok(entity("User")),
            ("Document", "level") => Ok(Type::Long),
            _ => unknown(),
        },
        Type::RecordOf(fields) => match fields.iter().find(|f| f.0 == attr) {
            Some(f) => Ok(f.1.dup()),
            None => unknown(),
        },
        _ => Err("not a record".to_string()),
    }
}

type Typed = Expr<Option<Type>>;

fn need_bool(t: &Typed) -> Result<(), String> {
    match &t.data {
        Some(Type::Bool(_)) => Ok(()),
        other => Err(format!("expected a boolean, got {other:?}")),
    }
}

fn need_long(t: &Typed) -> Result<(), String> {
    match &t.data {
        Some(Type::Long) => Ok(()),
        other => Err(format!("expected a number, got {other:?}")),
    }
}

/// The typed form of `e` in `env`.
fn typecheck(e: &Expr<()>, env: &RequestEnv) -> Result<Typed, String> {
    let go = |x: &Arc<Expr<()>>| typecheck(x, env).map(Arc::new);
    let (kind, ty) = match e.expr_kind() {
        ExprKind::Lit(p) => {
            let ty = match p {
                Prim::Bool(b) => just(*b),
                Prim::Long(_) => Type::Long,
                Prim::String(_) => Type::String,
                Prim::EntityUid(u) => entity(&u.ty),
            };
            (ExprKind::Lit(p.dup()), ty)
        }
        ExprKind::Var(v) => {
            let ty = match v {
                Var::Principal => entity(&env.principal),
                Var::Action => entity("Action"),
                Var::Resource => entity(&env.resource),
                Var::Context => {
                    Type::RecordOf(Arc::new(vec![("admin".to_string(), boolean(), true)]))
                }
            };
            (ExprKind::Var(*v), ty)
        }
        ExprKind::Slot(s) => {
            let ty = match s {
                SlotId::Principal => entity(&env.principal),
                SlotId::Resource => entity(&env.resource),
            };
            (ExprKind::Slot(*s), ty)
        }
        ExprKind::If { test_expr, then_expr, else_expr } => {
            let t = go(test_expr)?;
            need_bool(&t)?;
            match &t.data {
                Some(Type::Bool(BoolType::True)) => return typecheck(then_expr, env),
                Some(Type::Bool(BoolType::False)) => return typecheck(else_expr, env),
                _ => {}
            }
            let (a, b) = (go(then_expr)?, go(else_expr)?);
            let ty = match (&a.data, &b.data) {
                (Some(Type::Bool(_)), Some(Type::Bool(_))) => boolean(),
                (t, _) => t.dup().unwrap(),
            };
            (ExprKind::If { test_expr: t, then_expr: a, else_expr: b }, ty)
        }
        ExprKind::And { left, right } => {
            let l = go(left)?;
            need_bool(&l)?;
            if is_just(&l, false) {
                let right = decided(false);
                let kind = ExprKind::And { left: l, right };
                return Ok(Expr { kind, loc: e.loc, data: Some(just(false)) });
            }
            let r = go(right)?;
            need_bool(&r)?;
            let ty = if is_just(&r, false) || is_just(&l, true) {
                r.data.dup().unwrap()
            } else {
                boolean()
            };
            (ExprKind::And { left: l, right: r }, ty)
        }
        ExprKind::Or { left, right } => {
            let l = go(left)?;
            need_bool(&l)?;
            if is_just(&l, true) {
                let right = decided(true);
                let kind = ExprKind::Or { left: l, right };
                return Ok(Expr { kind, loc: e.loc, data: Some(just(true)) });
            }
            let r = go(right)?;
            need_bool(&r)?;
            let ty = if is_just(&r, true) || is_just(&l, false) {
                r.data.dup().unwrap()
            } else {
                boolean()
            };
            (ExprKind::Or { left: l, right: r }, ty)
        }
        ExprKind::UnaryApp { op, arg } => {
            let x = go(arg)?;
            let ty = match op {
                UnaryOp::Not => {
                    need_bool(&x)?;
                    match &x.data {
                        Some(Type::Bool(BoolType::True)) => just(false),
                        Some(Type::Bool(BoolType::False)) => just(true),
                        _ => boolean(),
                    }
                }
                UnaryOp::Neg => Type::Long,
                UnaryOp::IsEmpty => boolean(),
            };
            (ExprKind::UnaryApp { op: *op, arg: x }, ty)
        }
        ExprKind::BinaryApp { op, arg1, arg2 } => {
            let (x, y) = (go(arg1)?, go(arg2)?);
            let ty = match op {
                BinaryOp::Add | BinaryOp::Sub | BinaryOp::Mul => {
                    need_long(&x)?;
                    need_long(&y)?;
                    Type::Long
                }
                BinaryOp::GetTag => Type::Long,
                BinaryOp::Eq => match (arg1.expr_kind(), arg2.expr_kind()) {
                    (ExprKind::Var(Var::Action), ExprKind::Lit(Prim::EntityUid(u))) => {
                        just(*u == env.action)
                    }
                    _ => match (&x.data, &y.data) {
                        (Some(Type::Entity(a)), Some(Type::Entity(b))) if a[0] != b[0] => {
                            just(false)
                        }
                        _ => boolean(),
                    },
                },
                _ => boolean(),
            };
            (ExprKind::BinaryApp { op: *op, arg1: x, arg2: y }, ty)
        }
        ExprKind::ExtensionFunctionApp { fn_name, args } => {
            let xs = args.iter().map(|a| typecheck(a, env)).collect::<Result<Vec<_>, _>>()?;
            let kind =
                ExprKind::ExtensionFunctionApp { fn_name: fn_name.clone(), args: Arc::new(xs) };
            (kind, boolean())
        }
        ExprKind::GetAttr { expr, attr } => {
            let x = go(expr)?;
            let ty = attr_type(x.data.as_ref().unwrap(), attr)?;
            (ExprKind::GetAttr { expr: x, attr: attr.clone() }, ty)
        }
        ExprKind::HasAttr { expr, attr } => {
            (ExprKind::HasAttr { expr: go(expr)?, attr: attr.clone() }, boolean())
        }
        ExprKind::Like { expr, pattern } => {
            (ExprKind::Like { expr: go(expr)?, pattern: pattern.clone() }, boolean())
        }
        ExprKind::Is { expr, entity_type } => {
            let x = go(expr)?;
            let is = match &x.data {
                Some(Type::Entity(names)) => names[0] == *entity_type,
                _ => return Err("not an entity".to_string()),
            };
            (ExprKind::Is { expr: x, entity_type: entity_type.clone() }, just(is))
        }
        _ => return Err("not supported".to_string()),
    };
    Ok(Expr { kind, loc: e.loc, data: Some(ty) })
}

/// What stands for an operand that never runs.
fn decided(b: bool) -> Arc<Typed> {
    Arc::new(Expr { kind: ExprKind::Lit(Prim::Bool(b)), loc: None, data: Some(just(b)) })
}

fn is_just(t: &Typed, b: bool) -> bool {
    match &t.data {
        Some(Type::Bool(BoolType::True)) => b,
        Some(Type::Bool(BoolType::False)) => !b,
        _ => false,
    }
}

fn check(p: &Policy, env: &RequestEnv) -> Checked {
    let check = match typecheck(&p.condition(), env) {
        Ok(t) => match need_bool(&t) {
            Ok(()) => PolicyCheck::Success(t),
            Err(m) => PolicyCheck::Fail(vec![m]),
        },
        Err(m) => PolicyCheck::Fail(vec![m]),
    };
    Checked { errs: vec![], check }
}

fn valid(_: &Policy) -> Vec<String> {
    Vec::new()
}

fn message(e: &EvaluationError) -> String {
    format!("{e:?}")
}

// ---------------------------------------------------------------------------
// The models

/// Which parts of the store are varied, besides the attributes that every
/// family varies.
#[derive(Clone, Copy, Default)]
struct Dims {
    nick: bool,
    flag: bool,
    tag: bool,
    text: bool,
    level: bool,
    owner: bool,
    uids: bool,
    ab: bool,
    admin: bool,
    bob: bool,
}

/// A store in which every entity has attributes, and which entities exist.
struct World {
    total: Store,
    existing: Vec<(String, String)>,
}

impl World {
    /// The store with the entities that exist only.
    fn actual(&self) -> Store {
        Store {
            principal: self.total.principal.clone(),
            action: self.total.action.clone(),
            resource: self.total.resource.clone(),
            admin: self.total.admin,
            entities: self
                .total
                .entities
                .iter()
                .filter(|(k, _)| self.existing.contains(k))
                .cloned()
                .collect(),
        }
    }
}

fn pick<X: Clone>(on: bool, all: &[X]) -> Vec<X> {
    if on { all.to_vec() } else { all[..1].to_vec() }
}

/// The attributes of `User::"lucas"` where someone else is the principal.
fn known_user() -> Entity {
    let attrs = vec![
        ("active".to_string(), Val::Bool(true)),
        ("age".to_string(), Val::Long(18)),
        ("name".to_string(), Val::Text("x".to_string())),
        ("a".to_string(), Val::Bool(true)),
        ("b".to_string(), Val::Bool(true)),
    ];
    Entity { attrs, tags: vec![], parents: vec![] }
}

/// The values of `context.admin`, and of whether `User::"bob"` is active and
/// exists.
fn pairs(d: Dims) -> Vec<(bool, Option<(bool, bool)>)> {
    let all = [(true, true), (true, false), (false, true), (false, false)];
    let mut out = Vec::new();
    for admin in pick(d.admin, &[true, false]) {
        if d.bob {
            out.extend(all.iter().map(|b| (admin, Some(*b))));
        } else {
            out.push((admin, None));
        }
    }
    out
}

fn worlds(env: &RequestEnv, d: Dims) -> Vec<World> {
    let mut users: Vec<(String, Entity, bool)> = Vec::new();
    for id in pick(d.uids, &["lucas", "bob"]) {
        for active in [true, false] {
            for age in [i64::MIN, 0, 17, 18, 19, 20, i64::MAX] {
                for nick in pick(d.nick, &[None, Some("al"), Some("bo")]) {
                    for flag in pick(d.flag, &[None, Some(true), Some(false)]) {
                        for tag in pick(d.tag, &[None, Some(1), Some(5)]) {
                            for text in pick(d.text, &["x", "y"]) {
                                for (a, b) in pick(
                                    d.ab,
                                    &[(true, true), (true, false), (false, true), (false, false)],
                                ) {
                                    for exists in [true, false] {
                                        let mut attrs = vec![
                                            ("active".to_string(), Val::Bool(active)),
                                            ("age".to_string(), Val::Long(age)),
                                            ("name".to_string(), Val::Text(text.to_string())),
                                            ("a".to_string(), Val::Bool(a)),
                                            ("b".to_string(), Val::Bool(b)),
                                        ];
                                        if let Some(n) = nick {
                                            attrs.push((
                                                "nick".to_string(),
                                                Val::Text(n.to_string()),
                                            ));
                                        }
                                        if let Some(f) = flag {
                                            attrs.push(("flag".to_string(), Val::Bool(f)));
                                        }
                                        let tags = tag
                                            .iter()
                                            .map(|n| ("t".to_string(), Val::Long(*n)))
                                            .collect();
                                        let e = Entity { attrs, tags, parents: vec![] };
                                        users.push((id.to_string(), e, exists));
                                    }
                                }
                            }
                        }
                    }
                }
            }
        }
    }
    let mut docs: Vec<(String, Entity, bool, bool)> = Vec::new();
    for id in pick(d.uids, &["foo", "bar"]) {
        for protected in [true, false] {
            for level in pick(d.level, &[1, 3]) {
                for owner in pick(d.owner, &["lucas", "someone"]) {
                    for exists in [true, false] {
                        for other in pick(d.uids, &[false, true]) {
                            let attrs = vec![
                                ("protected".to_string(), Val::Bool(protected)),
                                ("level".to_string(), Val::Long(level)),
                                ("owner".to_string(), uid(&name("User", owner))),
                            ];
                            let e = Entity { attrs, tags: vec![], parents: vec![] };
                            docs.push((id.to_string(), e, exists, other));
                        }
                    }
                }
            }
        }
    }
    let mut out = Vec::new();
    for (u, user, user_exists) in &users {
        for (x, doc, doc_exists, other) in &docs {
            for (admin, bob) in pairs(d) {
                let principal = (env.principal.clone(), u.clone());
                let resource = (env.resource.clone(), x.clone());
                let other_doc = name("Document", if x == "foo" { "bar" } else { "foo" });
                let other_attrs = vec![
                    ("protected".to_string(), Val::Bool(*other)),
                    ("level".to_string(), Val::Long(1)),
                    ("owner".to_string(), uid(&name("User", "lucas"))),
                ];
                let plain = Entity { attrs: other_attrs, tags: vec![], parents: vec![] };
                let mut existing = vec![other_doc.clone()];
                if *user_exists {
                    existing.push(principal.clone());
                }
                if *doc_exists {
                    existing.push(resource.clone());
                }
                let mut entities =
                    vec![(principal.clone(), user.clone()), (resource.clone(), doc.clone())];
                entities.push((other_doc, plain));
                if u != "lucas" {
                    entities.push((name("User", "lucas"), known_user()));
                    existing.push(name("User", "lucas"));
                }
                if let Some((active, exists)) = bob {
                    let attrs = vec![
                        ("active".to_string(), Val::Bool(active)),
                        ("age".to_string(), Val::Long(0)),
                        ("name".to_string(), Val::Text(if active { "bob" } else { "x" }.to_string())),
                    ];
                    let e = Entity { attrs, tags: vec![], parents: vec![] };
                    entities.push((name("User", "bob"), e));
                    if exists {
                        existing.push(name("User", "bob"));
                    }
                }
                let total = Store {
                    principal: principal.clone(),
                    action: name(&env.action.ty, &env.action.eid),
                    resource: resource.clone(),
                    admin,
                    entities,
                };
                out.push(World { total, existing });
            }
        }
    }
    out
}

// ---------------------------------------------------------------------------
// The compiler and the solver of one request environment

struct Solver {
    env: RequestEnv,
    worlds: Vec<World>,
    /// The expressions that were compiled, and their values in each world.
    known: RefCell<Vec<(Expr<()>, Arc<Vec<Option<Val>>>)>>,
}

/// The value of a term: an optional value, or a value.
#[derive(Clone, Debug, PartialEq)]
enum Meaning {
    Opt(Option<Val>),
    Just(Val),
}

/// Whether `e` reads nothing of the input.
fn closed(e: &Expr<()>) -> bool {
    match e.expr_kind() {
        ExprKind::Var(Var::Action) => true,
        ExprKind::Var(_) | ExprKind::GetAttr { .. } | ExprKind::HasAttr { .. } => false,
        ExprKind::Is { .. } => true,
        _ => (0..e.kid_count()).all(|i| closed(e.kid(i))),
    }
}

impl Solver {
    fn new(env: RequestEnv, dims: Dims) -> Solver {
        let worlds = worlds(&env, dims);
        Solver { env, worlds, known: RefCell::new(Vec::new()) }
    }

    fn id_of(&self, e: &Expr<()>) -> (u64, Arc<Vec<Option<Val>>>) {
        let mut known = self.known.borrow_mut();
        if let Some(i) = known.iter().position(|(k, _)| k == e) {
            return (i as u64, known[i].1.clone());
        }
        let values: Arc<Vec<Option<Val>>> =
            Arc::new(self.worlds.iter().map(|w| eval(e, &w.total).ok()).collect());
        known.push((e.dup(), values.clone()));
        ((known.len() - 1) as u64, values)
    }

    fn compile(&self, e: &Expr<()>) -> Result<Compiled, String> {
        let ty = match typecheck(e, &self.env).map(|t| t.data) {
            Ok(Some(Type::Entity(names))) => TermType::Entity(names[0].clone()),
            _ => TermType::Other,
        };
        let (id, values) = self.id_of(e);
        let term = if closed(e) && matches!(values[0], None | Some(Val::Bool(_))) {
            match &values[0] {
                Some(Val::Bool(b)) => Term::SomeOf(Arc::new(Term::Bool(*b))),
                _ => Term::NoneOf,
            }
        } else {
            Term::Compiled { id, total: values.iter().all(|v| v.is_some()) }
        };
        Ok(Compiled { term, ty, footprint: vec![] })
    }

    fn meaning(&self, t: &Term, w: usize) -> Meaning {
        let truth = |b: bool| Meaning::Just(Val::Bool(b));
        match t {
            Term::Bool(b) => truth(*b),
            Term::Compiled { id, .. } => {
                Meaning::Opt(self.known.borrow()[*id as usize].1[w].clone())
            }
            Term::SomeOf(x) => match self.meaning(x, w) {
                Meaning::Just(v) => Meaning::Opt(Some(v)),
                m => panic!("{m:?}"),
            },
            Term::NoneOf => Meaning::Opt(None),
            Term::Eq(a, b) => truth(self.meaning(a, w) == self.meaning(b, w)),
            Term::And(a, b) => truth(self.holds(a, w) && self.holds(b, w)),
            Term::Or(a, b) => truth(self.holds(a, w) || self.holds(b, w)),
            Term::Not(x) => truth(!self.holds(x, w)),
            Term::IsSome(x) => truth(matches!(self.meaning(x, w), Meaning::Opt(Some(_)))),
            Term::IsNone(x) => truth(matches!(self.meaning(x, w), Meaning::Opt(None))),
            Term::OptionGet(x) => match self.meaning(x, w) {
                Meaning::Opt(Some(v)) => Meaning::Just(v),
                _ => Meaning::Just(Val::Rec(vec![])),
            },
            Term::Exists(_, x) => match self.meaning(x, w) {
                Meaning::Just(Val::Uid(ty, eid)) => {
                    truth(self.worlds[w].existing.contains(&(ty, eid)))
                }
                _ => truth(true),
            },
            Term::Entity(u) => Meaning::Just(Val::Uid(u.ty.clone(), u.eid.clone())),
            Term::Text(s) => Meaning::Just(Val::Text(s.clone())),
            Term::App(f, x) => match (*f, self.meaning(x, w)) {
                (1, Meaning::Just(Val::Uid(ty, eid))) => {
                    let e = self.worlds[w].total.get(&ty, &eid).unwrap();
                    let mut attrs = e.attrs.clone();
                    attrs.sort_by(|x, y| x.0.cmp(&y.0));
                    Meaning::Just(Val::Rec(attrs))
                }
                (n, m) => panic!("function {n} of {m:?}"),
            },
            other => panic!("{other:?}"),
        }
    }

    fn holds(&self, t: &Term, w: usize) -> bool {
        self.meaning(t, w) == Meaning::Just(Val::Bool(true))
    }

    fn unsat(&self, asserts: &[Term]) -> bool {
        !(0..self.worlds.len()).any(|w| asserts.iter().all(|t| self.holds(t, w)))
    }

    /// The decision of a policy set, as an expression that is true where it
    /// allows the request.
    fn allows(&self, set: &PolicySet) -> Expr<()> {
        let some = |effect: Effect| {
            let mut e = expr("false");
            for p in set.policies().iter().filter(|p| p.effect == effect) {
                let args = Arc::new(vec![p.condition(), expr("false")]);
                let c =
                    mk(ExprKind::ExtensionFunctionApp { fn_name: "iferror".to_string(), args });
                e = mk(ExprKind::Or { left: Arc::new(e), right: Arc::new(c) });
            }
            e
        };
        let forbidden = un(UnaryOp::Not, some(Effect::Forbid));
        mk(ExprKind::And { left: Arc::new(some(Effect::Permit)), right: Arc::new(forbidden) })
    }
}

fn attributes() -> EntityAttrs {
    let attrs = |list: &[(&str, bool)]| {
        Arc::new(list.iter().map(|(n, o)| (n.to_string(), *o)).collect::<Vec<_>>())
    };
    EntityAttrs {
        types: vec![
            (
                "User".to_string(),
                attrs(&[
                    ("name", false),
                    ("active", false),
                    ("age", false),
                    ("nick", true),
                    ("flag", true),
                    ("a", false),
                    ("b", false),
                ]),
            ),
            (
                "Document".to_string(),
                attrs(&[("protected", false), ("owner", false), ("level", false)]),
            ),
        ],
    }
}

fn entity_info(u: &EntityUid) -> EntityInfo {
    let known = u.ty == "User" || u.ty == "Document";
    EntityInfo {
        valid: known,
        data: if known {
            Some(SymEntityData { attrs: 1, ancestors: vec![], tags: None })
        } else {
            None
        },
        standard: known,
        tagged: false,
    }
}

/// The compilers of `solver`'s environment.
fn backend<'a>(
    solver: &'a Solver,
) -> Backend<
    impl Fn(&Policy, &RequestEnv) -> Checked + 'a,
    impl Fn(&Expr<()>) -> Result<Compiled, String> + 'a,
    impl Fn(&PolicySet, &RequestEnv) -> Result<CompiledSet, PolicyError> + 'a,
    impl Fn(&EntityUid) -> EntityInfo + 'a,
> {
    Backend {
        check,
        sym: SymEnv { compile: |e: &Expr<()>| solver.compile(e), entities: attributes() },
        policies: |set: &PolicySet, _: &RequestEnv| {
            let (id, _) = solver.id_of(&solver.allows(set));
            let term = Term::OptionGet(Arc::new(Term::Compiled { id, total: true }));
            Ok(CompiledSet { term, footprint: vec![] })
        },
        entity: entity_info,
        request: SymRequest {
            principal: Term::OptionGet(Arc::new(solver.compile(&expr("principal")).unwrap().term)),
            resource: Term::OptionGet(Arc::new(solver.compile(&expr("resource")).unwrap().term)),
            context: Term::OptionGet(Arc::new(solver.compile(&expr("context")).unwrap().term)),
        },
    }
}

fn nothing(_: &Vec<Term>) -> Vec<Term> {
    Vec::new()
}

/// Prepares an evaluation.
fn prepare<X: Typecheckable>(
    ev: &mut Evaluator,
    solver: &Solver,
    target: &X,
    extras: &Vec<Expr<()>>,
) -> Result<Prepared, EvaluationError> {
    ev.prepare(target, &solver.env, extras, &backend(solver), &nothing)
}

/// Runs an evaluation to its end.
fn run<X: Typecheckable>(
    ev: &mut Evaluator,
    solver: &Solver,
    target: &X,
    extras: &Vec<Expr<()>>,
) -> Result<(Expr<EvaluationMetadata>, Vec<NodeOutcome>), EvaluationError> {
    let prepared = prepare(ev, solver, target, extras)?;
    let mut answers: Vec<bool> = Vec::new();
    loop {
        let (next, progress) = step(&prepared.root, &prepared.base, &answers);
        match next {
            Step::Ask(asserts) => answers.push(solver.unsat(&asserts)),
            Step::Done(r) => {
                ev.record(progress.queries);
                return Ok((r, progress.observed));
            }
            Step::Fail(e) => {
                ev.record(progress.queries);
                return Err(e);
            }
        }
    }
}

/// Whether `result` and `target` denote the same on every model of the
/// assumptions.
fn equivalent<X: Typecheckable>(
    ev: &mut Evaluator,
    solver: &Solver,
    target: &X,
    result: &Expr<EvaluationMetadata>,
    extras: &Vec<Expr<()>>,
) -> bool {
    let asserts =
        ev.difference(target, result, &solver.env, extras, &backend(solver), &nothing).unwrap();
    let unsat = solver.unsat(&asserts);
    ev.record(vec![QueryRecord { asserts, unsat }]);
    unsat
}

fn none() -> Vec<Expr<()>> {
    Vec::new()
}

/// Evaluates `text`, checks that the result denotes the same and that its
/// outcomes cover every model, and returns it.
fn evaluate(ev: &mut Evaluator, solver: &Solver, text: &str) -> Expr<EvaluationMetadata> {
    let e = expr(text);
    let (r, _) = match run(ev, solver, &e, &none()) {
        Ok(r) => r,
        Err(err) => panic!("evaluating `{text}`: {err:?}"),
    };
    assert!(equivalent(ev, solver, &e, &r, &none()), "`{}` from `{text}`", show(&r));
    // on every actual store that satisfies the assumptions, the result
    // evaluates like the input, and the outcome is a predicted one
    let prepared = prepare(ev, solver, &e, &none()).unwrap();
    let erased = erase_metadata(&r);
    for w in 0..solver.worlds.len() {
        if !prepared.base.iter().all(|t| solver.holds(t, w)) {
            continue;
        }
        let store = solver.worlds[w].actual();
        let (before, after) = (eval(&e, &store), eval(&erased, &store));
        assert_eq!(before.clone().ok(), after.ok(), "`{text}` and `{}`", show(&r));
        let outcome = match before {
            Ok(Val::Bool(true)) => Tr,
            Ok(Val::Bool(false)) => Fa,
            _ => Er,
        };
        assert!(r.data.can(outcome), "`{text}` can be {outcome:?}");
    }
    r
}

fn outcomes(set: &[EvaluationOutcome]) -> Outcomes {
    let has = |o: EvaluationOutcome| set.contains(&o);
    Outcomes::from_flags(has(Tr), has(Fa), has(Er)).unwrap()
}

fn assert_outcomes(r: &Expr<EvaluationMetadata>, expected: &[EvaluationOutcome]) {
    assert!(
        r.data.outcomes().same(&outcomes(expected)),
        "outcomes of `{}`: {}",
        show(r),
        r.data.describe()
    );
}

fn assert_residual(r: &Expr<EvaluationMetadata>, expected: &str, set: &[EvaluationOutcome]) {
    assert!(
        erase_metadata(r) == expr(expected),
        "expected residual `{expected}`, got `{}`",
        show(r)
    );
    assert_outcomes(r, set);
}

fn assert_literal(r: &Expr<EvaluationMetadata>, expected: bool) {
    assert_eq!(literal_of(r), Some(expected), "got `{}`", show(r));
    assert_outcomes(r, &[if expected { Tr } else { Fa }]);
}

// ---------------------------------------------------------------------------
// Expressions

fn solver(dims: Dims) -> Solver {
    Solver::new(view(), dims)
}

#[test]
fn readme_example() {
    let s = solver(Dims { uids: true, ..Dims::default() });
    let mut ev = Evaluator::new(schema());
    ev.assume_expr(expr(r#"principal == User::"lucas""#));
    ev.assume_expr(expr(r#"Document::"foo".protected == false"#));

    // `resource` is still symbolic: only the principal half folds.
    let text = r#"principal == User::"lucas" && !resource.protected"#;
    let r = evaluate(&mut ev, &s, text);
    // (`resource` may not even exist: an error is possible)
    assert_residual(&r, "!resource.protected", &[Tr, Fa, Er]);

    // Pinning `resource` folds everything.
    ev.assume_expr(expr(r#"resource == Document::"foo""#));
    let r = evaluate(&mut ev, &s, text);
    assert_literal(&r, true);
}

#[test]
fn atoms_without_assumptions() {
    let s = solver(Dims { flag: true, ..Dims::default() });
    let mut ev = Evaluator::new(schema());

    // nothing says that the principal exists
    let r = evaluate(&mut ev, &s, "principal.active");
    assert_residual(&r, "principal.active", &[Tr, Fa, Er]);

    // arithmetic may overflow
    let r = evaluate(&mut ev, &s, "principal.age + 1 > 18");
    assert_residual(&r, "principal.age + 1 > 18", &[Tr, Fa, Er]);

    // the trail carries the `has` into the right operand, which then can miss
    // neither the attribute nor the entity
    let r = evaluate(&mut ev, &s, "principal has flag && principal.flag");
    assert_residual(&r, "principal has flag && principal.flag", &[Tr, Fa]);
    let ExprKind::And { left, right } = r.expr_kind() else { panic!("{}", show(&r)) };
    assert_outcomes(left, &[Tr, Fa]);
    assert_outcomes(right, &[Tr, Fa]);
}

#[test]
fn three_valued_and_or() {
    let s = solver(Dims::default());
    let mut ev = Evaluator::new(schema());

    // `<can-error> && false` cannot fold: it is false or an error
    let r = evaluate(&mut ev, &s, "principal.age + 1 > 18 && false");
    assert_residual(&r, "principal.age + 1 > 18 && false", &[Fa, Er]);

    // `<error-free> && false` is false, once the principal is known to exist
    let r = evaluate(&mut ev, &s, "principal.active && false");
    assert_residual(&r, "principal.active && false", &[Fa, Er]);
    ev.assume_expr(expr("principal.active || true"));
    let r = evaluate(&mut ev, &s, "principal.active && false");
    assert_literal(&r, false);

    // duals for `||`
    let r = evaluate(&mut ev, &s, "principal.age + 1 > 18 || true");
    assert_residual(&r, "principal.age + 1 > 18 || true", &[Tr, Er]);
    let r = evaluate(&mut ev, &s, "principal.active || true");
    assert_literal(&r, true);
    let mut ev = Evaluator::new(schema());

    // `x && true` is `x`, `x || false` is `x`
    let r = evaluate(&mut ev, &s, "principal.age + 1 > 18 && true");
    assert_residual(&r, "principal.age + 1 > 18", &[Tr, Fa, Er]);
    let r = evaluate(&mut ev, &s, "principal.age + 1 > 18 || false");
    assert_residual(&r, "principal.age + 1 > 18", &[Tr, Fa, Er]);
}

#[test]
fn error_stops_evaluation() {
    let s = solver(Dims::default());
    let mut ev = Evaluator::new(schema());
    let before = ev.solver_queries();
    // the left operand is a compile-time error, so the right one is never
    // asked about, and what is asked are constants
    let e = expr("1 + 9223372036854775807 > 0 && principal.active");
    let (r, _) = run(&mut ev, &s, &e, &none()).unwrap();
    assert_outcomes(&r, &[Er]);
    assert!(literal_of(&r).is_none());
    assert_eq!(ev.solver_queries() - before, 0);
    assert!(equivalent(&mut ev, &s, &e, &r, &none()));
}

#[test]
fn trail_assumptions() {
    let s = solver(Dims::default());
    let mut ev = Evaluator::new(schema());

    // The second disjunct is dead: `a && !a` under `!(a && b)`.
    let r = evaluate(
        &mut ev,
        &s,
        "(principal.active && principal.age > 18) || (principal.active && !principal.active)",
    );
    assert_residual(&r, "principal.active && principal.age > 18", &[Tr, Fa, Er]);

    // `!a` is known under `!a`.
    let r = evaluate(
        &mut ev,
        &s,
        "principal.active || (!principal.active && principal.age > 18)",
    );
    assert_residual(&r, "principal.active || principal.age > 18", &[Tr, Fa, Er]);
}

#[test]
fn trail_gating() {
    let s = solver(Dims::default());
    let mut ev = Evaluator::new(schema());
    ev.assume_expr(expr("!principal.active"));

    // the left operand cannot be true, so the right one is dead
    let r = evaluate(
        &mut ev,
        &s,
        "(principal.age + 1 > 18 && principal.active) && principal.age > 18",
    );
    assert_residual(&r, "principal.age + 1 > 18 && false", &[Fa, Er]);

    // Same for `if`: a branch is visited only if the test can reach it.
    let mut ev = Evaluator::new(schema());
    ev.assume_expr_outcomes(expr("principal.age + 1 > 18"), outcomes(&[Tr, Er]));
    let text = "if principal.age + 1 > 18 then principal.active else principal.age > 18";
    let r = evaluate(&mut ev, &s, text);
    assert_residual(&r, text, &[Tr, Fa, Er]);
    let ExprKind::If { test_expr, then_expr, else_expr } = r.expr_kind() else {
        panic!("{}", show(&r))
    };
    assert_outcomes(test_expr, &[Tr, Er]);
    assert_outcomes(then_expr, &[Tr, Fa]);
    assert_outcomes(else_expr, &[Tr, Fa, Er]);
    assert!(else_expr.data == EvaluationMetadata::default());
}

#[test]
fn if_folding() {
    let s = solver(Dims::default());
    let mut ev = Evaluator::new(schema());
    let text = "if principal.active then principal.age > 18 else false";
    let r = evaluate(&mut ev, &s, text);
    assert_residual(&r, text, &[Tr, Fa, Er]);

    ev.assume_expr(expr("principal.active"));
    let r = evaluate(&mut ev, &s, text);
    assert_residual(&r, "principal.age > 18", &[Tr, Fa]);
}

#[test]
fn not_folding() {
    let s = solver(Dims::default());
    let mut ev = Evaluator::new(schema());
    let r = evaluate(&mut ev, &s, "!(principal.age + 1 > 18)");
    assert_residual(&r, "!(principal.age + 1 > 18)", &[Tr, Fa, Er]);
    ev.assume_expr(expr("principal.active"));
    let r = evaluate(&mut ev, &s, "!principal.active");
    assert_literal(&r, false);
}

#[test]
fn assumed_outcomes() {
    let s = solver(Dims::default());
    let mut ev = Evaluator::new(schema());
    ev.assume_expr_outcomes(expr("principal.age + 1 > 18"), outcomes(&[Fa, Er]));
    let r = evaluate(&mut ev, &s, "principal.age + 1 > 18");
    assert_residual(&r, "principal.age + 1 > 18", &[Fa, Er]);

    // `a > b` is `!(a <= b)`, and `!` collapses to an erroring operand
    let mut ev = Evaluator::new(schema());
    ev.assume_expr_outcomes(expr("principal.age + 1 > 18"), outcomes(&[Er]));
    let r = evaluate(&mut ev, &s, "principal.age + 1 > 18");
    assert_residual(&r, "principal.age + 1 <= 18", &[Er]);
}

#[test]
fn policyset_decision() {
    let text = "permit(principal, action, resource) when { principal.active };";
    let s = solver(Dims::default());
    let mut ev = Evaluator::new(schema());
    ev.assume_policyset_decision(policies(text), Decision::Allow);
    let r = evaluate(&mut ev, &s, "principal.active");
    assert_literal(&r, true);

    let mut ev = Evaluator::new(schema());
    ev.assume_policyset_decision(policies(text), Decision::Deny);
    let e = expr("principal.active");
    let (r, _) = run(&mut ev, &s, &e, &none()).unwrap();
    // denied because `principal.active` is false, or because it errored on a
    // missing principal
    assert_residual(&r, "principal.active", &[Fa, Er]);
}

#[test]
fn a_missing_entity_meets_a_decision() {
    let text = "permit(principal, action, resource) when { principal has age };
        forbid(principal, action, resource) when { resource.protected };";
    let s = solver(Dims::default());
    let mut ev = Evaluator::new(schema());
    ev.assume_policyset_decision(policies(text), Decision::Deny);
    // denied because of the document, or because there is no principal
    let r = evaluate(&mut ev, &s, "resource.protected");
    assert_outcomes(&r, &[Tr, Fa, Er]);
    let known = vec![expr("principal has age")];
    let (r, _) = run(&mut ev, &s, &expr("resource.protected"), &known).unwrap();
    assert_literal(&r, true);

    let mut ev = Evaluator::new(schema());
    ev.assume_policyset_decision(policies(text), Decision::Allow);
    let r = evaluate(&mut ev, &s, "principal has age");
    assert_literal(&r, true);
    let r = evaluate(&mut ev, &s, "resource.protected");
    assert_outcomes(&r, &[Fa, Er]);
}

#[test]
fn extra_assumptions_are_per_call() {
    let s = solver(Dims::default());
    let mut ev = Evaluator::new(schema());
    let e = expr("principal.active");
    let (r, _) = run(&mut ev, &s, &e, &vec![expr("principal.active")]).unwrap();
    assert_literal(&r, true);
    let (r, _) = run(&mut ev, &s, &e, &none()).unwrap();
    assert_residual(&r, "principal.active", &[Tr, Fa, Er]);
}

#[test]
fn errors() {
    let s = solver(Dims::default());
    let mut ev = Evaluator::new(schema());
    ev.assume_expr(expr("principal.active"));
    ev.assume_expr(expr("!principal.active"));
    let err = run(&mut ev, &s, &expr("principal.age > 18"), &none()).unwrap_err();
    assert!(matches!(err, EvaluationError::UnsatisfiableAssumptions), "{err:?}");

    let mut ev = Evaluator::new(schema());
    let err = run(&mut ev, &s, &expr("principal.nonexistent"), &none()).unwrap_err();
    assert!(matches!(err, EvaluationError::NotWellTyped { .. }), "{err:?}");

    // a non-boolean expression is no policy condition
    let err = run(&mut ev, &s, &expr("principal.age"), &none()).unwrap_err();
    assert!(matches!(err, EvaluationError::NotWellTyped { .. }), "{err:?}");

    let nope = Solver::new(env("User", "nope", "Document"), Dims::default());
    let err = run(&mut ev, &nope, &expr("principal.active"), &none()).unwrap_err();
    match err {
        EvaluationError::RequestEnvNotFound(e) => assert_eq!(e.action.eid, "nope"),
        err => panic!("{err:?}"),
    }

    // an assumption that is ill-typed in the evaluated environment
    let mut ev = Evaluator::new(schema());
    ev.assume_expr(expr("principal.active"));
    let group = Solver::new(admin(), Dims::default());
    let err = run(&mut ev, &group, &expr("resource.protected"), &none()).unwrap_err();
    match err {
        EvaluationError::AssumptionNotWellTyped { env, .. } => assert_eq!(env.principal, "Group"),
        err => panic!("{err:?}"),
    }
}

#[test]
fn assumptions_apply_in_every_env() {
    let (s, t) = (solver(Dims::default()), Solver::new(edit(), Dims::default()));
    let mut ev = Evaluator::new(schema());
    ev.assume_expr(expr("principal.active"));
    let text = "principal.active && principal.age > 18";
    let r = evaluate(&mut ev, &s, text);
    assert_residual(&r, "principal.age > 18", &[Tr, Fa]);
    let r = evaluate(&mut ev, &t, text);
    assert_residual(&r, "principal.age > 18", &[Tr, Fa]);
    // and one registered after an environment was prepared is compiled into it
    // lazily
    ev.assume_expr(expr("principal.age > 18"));
    let r = evaluate(&mut ev, &s, text);
    assert_literal(&r, true);
}

#[test]
fn query_trace_records_all_queries() {
    let s = solver(Dims::default());
    let mut ev = Evaluator::new(schema());
    ev.assume_expr(expr("principal.active"));
    ev.record_trace(true);
    assert!(ev.take_trace().is_none(), "no trace before an evaluation");

    let e = expr("principal.active && principal.age > 18");
    let before = ev.solver_queries();
    let prepared = prepare(&mut ev, &s, &e, &none()).unwrap();
    let mut answers: Vec<bool> = Vec::new();
    let result = loop {
        let (next, progress) = step(&prepared.root, &prepared.base, &answers);
        match next {
            Step::Ask(asserts) => answers.push(s.unsat(&asserts)),
            Step::Done(r) => {
                assert_eq!(progress.queries.len(), answers.len());
                ev.record(progress.queries);
                break r;
            }
            Step::Fail(e) => panic!("{e:?}"),
        }
    };
    assert!(ev.solver_queries() > before);
    assert!(equivalent(&mut ev, &s, &e, &result, &none()), "result must be equivalent");

    let trace = ev.take_trace().unwrap();
    // the scope of the wrapping policy leaves `true && (true && (true && e))`
    assert_eq!(
        trace.erased,
        expr("true && (true && (true && (principal.active && principal.age > 18)))")
    );
    // the first query is the up-front satisfiability check of the base
    let text = |ts: &[Term]| ts.iter().map(|t| format!("{t:?}")).collect::<Vec<_>>();
    let first = trace.queries.first().unwrap();
    assert_eq!(text(&first.asserts), text(&trace.base));
    assert!(!first.unsat);
    // the equivalence check contributed its base and exactly one final query
    let ce_base = trace.ce_base.as_ref().unwrap();
    let last = trace.queries.last().unwrap();
    assert_eq!(last.asserts.len(), ce_base.len() + 1);
    assert_eq!(text(&last.asserts[..ce_base.len()]), text(ce_base));
    assert!(last.unsat);
    for q in &trace.queries {
        assert_eq!(text(&q.asserts[..trace.base.len()]), text(&trace.base));
    }
    // taking the trace clears it; the next evaluation starts a fresh one
    assert!(ev.take_trace().is_none());
    run(&mut ev, &s, &expr("principal.active"), &none()).unwrap();
    let trace = ev.take_trace().unwrap();
    assert!(trace.ce_base.is_none());
    assert_eq!(trace.erased, expr("true && (true && (true && principal.active))"));
    ev.record_trace(false);
    run(&mut ev, &s, &expr("principal.active"), &none()).unwrap();
    assert!(ev.take_trace().is_none());
}

#[test]
fn iferror_coalesces_errors() {
    let s = solver(Dims::default());
    let mut ev = Evaluator::new(schema());

    // `e` may overflow: {T, F, E} becomes {T, F}
    let r = evaluate(&mut ev, &s, "iferror(principal.age + 1 > 18, false)");
    assert_residual(&r, "iferror(principal.age + 1 > 18, false)", &[Tr, Fa]);
    let r = evaluate(&mut ev, &s, "!iferror(principal.age + 1 > 18, false)");
    assert_residual(&r, "!iferror(principal.age + 1 > 18, false)", &[Tr, Fa]);

    // an error-free `e` makes the fallback irrelevant, even an erroring one
    ev.assume_expr(expr("principal.active || true"));
    let text = "iferror(principal.active, principal.age + 1 > 18)";
    let r = evaluate(&mut ev, &s, text);
    assert_residual(&r, text, &[Tr, Fa]);

    // a fallback that may itself error where `e` does keeps the error
    // reachable
    let text = "iferror(principal.age + 1 > 18, principal.age + 2 > 0)";
    let r = evaluate(&mut ev, &s, text);
    assert_residual(&r, text, &[Tr, Fa, Er]);
    // ... but not one that cannot
    let text = "iferror(principal.age + 1 > 18, principal.age - 1 < 0)";
    let r = evaluate(&mut ev, &s, text);
    assert_residual(&r, text, &[Tr, Fa]);

    // literal arguments fold
    let r = evaluate(&mut ev, &s, "iferror(true, false)");
    assert_literal(&r, true);

    // under an assumption that fixes `e`, the coalesced form folds with it
    ev.assume_expr(expr("principal.age == 20"));
    let r = evaluate(&mut ev, &s, "iferror(principal.age + 1 > 18, false)");
    assert_literal(&r, true);
}

#[test]
fn kept_has_guards() {
    let s = solver(Dims { nick: true, text: true, tag: true, ..Dims::default() });
    let mut ev = Evaluator::new(schema());
    ev.assume_expr(expr("principal has nick"));

    // true under the assumption, yet kept for its access, with outcomes {T}
    let text = r#"principal has nick && principal.nick == "al""#;
    let r = evaluate(&mut ev, &s, text);
    assert_residual(&r, text, &[Tr, Fa]);
    let ExprKind::And { left, .. } = r.expr_kind() else { panic!("{}", show(&r)) };
    assert_outcomes(left, &[Tr]);

    // a required attribute needs no guard: folded
    let r = evaluate(&mut ev, &s, r#"principal has name && principal.name == "x""#);
    assert_residual(&r, r#"principal.name == "x""#, &[Tr, Fa]);

    // nothing follows that needs the guard: folded
    let r = evaluate(&mut ev, &s, "principal has nick && principal.active");
    assert_residual(&r, "principal.active", &[Tr, Fa]);

    // the guarded scope folded to a literal: the guard goes with it
    let r = evaluate(&mut ev, &s, "principal has nick && principal.nick == principal.nick");
    assert_literal(&r, true);

    // an `if` keeps its test (the else branch is dead but stays as written)
    let text = r#"if principal has nick then principal.nick == "al" else false"#;
    let r = evaluate(&mut ev, &s, text);
    assert_residual(&r, text, &[Tr, Fa]);
    let r = evaluate(
        &mut ev,
        &s,
        "if principal has nick then principal.nick == principal.nick else false",
    );
    assert_literal(&r, true);

    // not a guard: folded
    let r = evaluate(&mut ev, &s, "!(principal has nick)");
    assert_literal(&r, false);

    // tags: every `getTag` needs its guard
    let mut ev = Evaluator::new(schema());
    ev.assume_expr(expr(r#"principal.hasTag("t")"#));
    let text = r#"principal.hasTag("t") && principal.getTag("t") > 1"#;
    let r = evaluate(&mut ev, &s, text);
    assert_residual(&r, text, &[Tr, Fa]);
    let r = evaluate(&mut ev, &s, r#"principal.hasTag("t") && principal.age > 1"#);
    assert_residual(&r, "principal.age > 1", &[Tr, Fa]);
}

/// What is known of an operand that took a value because its receiver is
/// missing does not rule the input out for the next operand.
#[test]
fn a_missing_receiver_reaches_the_next_operand() {
    let s = solver(Dims { nick: true, ..Dims::default() });
    let mut ev = Evaluator::new(schema());
    for (text, expected) in [
        ("principal has age || principal has name", &[Tr, Fa][..]),
        ("if principal has age then true else principal has name", &[Tr, Fa]),
        ("(principal has age && principal has name) || principal has active", &[Tr, Fa]),
        // the principal is missing there, so the access errs
        ("!(principal has age || principal has nick) && principal.active", &[Fa, Er]),
    ] {
        let (r, _) = run(&mut ev, &s, &expr(text), &none()).unwrap();
        assert_outcomes(&r, expected);
        assert!(literal_of(&r).is_none(), "{text}");
    }
    // the first operand leaves only a missing principal, which has no name
    let r = evaluate(&mut ev, &s, "!(principal has age) && principal has name");
    assert_literal(&r, false);
    // once the principal is known to exist, the operands are decided
    ev.assume_expr(expr("principal.age > 18"));
    let r = evaluate(&mut ev, &s, "principal has age || principal has name");
    assert_literal(&r, true);
}

/// An input meets an assumption also where it does so because an entity is
/// missing.
#[test]
fn a_missing_entity_meets_an_assumption() {
    let s = solver(Dims::default());
    let mut ev = Evaluator::new(schema());
    ev.assume_expr(expr("!(principal has age) || resource.protected"));
    let r = evaluate(&mut ev, &s, "resource.protected");
    assert_outcomes(&r, &[Tr, Fa, Er]);
    // once the principal is known to exist, the other disjunct is
    let pinned = vec![expr("principal.active || true")];
    let (r, _) = run(&mut ev, &s, &expr("resource.protected"), &pinned).unwrap();
    assert_literal(&r, true);

    // only inputs without the principal are left
    let mut ev = Evaluator::new(schema());
    ev.assume_expr(expr("!(principal has age)"));
    let (r, _) = run(&mut ev, &s, &expr("principal.active"), &none()).unwrap();
    assert_outcomes(&r, &[Er]);

    // an access that errs does so on a missing entity
    let mut ev = Evaluator::new(schema());
    ev.assume_expr_outcomes(expr("principal.active"), outcomes(&[Er]));
    let (r, _) = run(&mut ev, &s, &expr("principal has age"), &none()).unwrap();
    assert!(r.data.can(Fa));
    let (r, _) = run(&mut ev, &s, &expr("principal.active"), &none()).unwrap();
    assert_outcomes(&r, &[Er]);
}

#[test]
fn a_query_that_fails_is_counted() {
    let s = solver(Dims::default());
    let mut ev = Evaluator::new(schema());
    let prepared = ev
        .prepare(&expr("principal.active"), &view(), &none(), &backend(&s), &nothing)
        .unwrap();
    let (next, progress) = step(&prepared.root, &prepared.base, &vec![false]);
    let Step::Ask(asserts) = next else { panic!("{next:?}") };
    ev.record(progress.queries);
    let answered = ev.solver_queries();
    ev.record_failed(&asserts);
    assert_eq!(ev.solver_queries(), answered + 1);
    // one that needs no solver is not
    ev.record_failed(&vec![Term::Bool(false)]);
    assert_eq!(ev.solver_queries(), answered + 1);
}

/// The store has no notion of a missing entity, so the evaluator tracks
/// existence itself.
#[test]
fn missing_entities() {
    let s = solver(Dims { nick: true, tag: true, text: true, bob: true, ..Dims::default() });
    let mut ev = Evaluator::new(schema());
    for (text, expected) in [
        (r#"User::"bob".name == "bob""#, &[Tr, Fa, Er][..]),
        ("principal.active", &[Tr, Fa, Er]),
        // `has` of a required attribute is `false`, not an error, on a missing
        // entity; of an optional one it is unconstrained anyway
        ("principal has age", &[Tr, Fa]),
        ("principal has nick", &[Tr, Fa]),
        // `hasTag` is `false` on a missing entity; when true it proves that
        // the entity exists
        (r#"principal.hasTag("t")"#, &[Tr, Fa]),
        (r#"principal.hasTag("t") && principal.getTag("t") == 1"#, &[Tr, Fa]),
        // where the symbolic term keeps a value and the concrete evaluation
        // errors or differs, the atom cannot fold
        ("iferror(principal.active == principal.active, false)", &[Tr, Fa]),
        ("(principal has age) == false", &[Tr, Fa, Er]),
        ("iferror(principal.active, true) == true", &[Tr, Fa, Er]),
        // `iferror` coalesces the missing-entity error too
        ("iferror(principal.active, false)", &[Tr, Fa]),
    ] {
        let (r, _) = run(&mut ev, &s, &expr(text), &none()).unwrap();
        assert_outcomes(&r, expected);
    }

    // An assumption that an access evaluated proves its receiver exists ...
    let mut ev = Evaluator::new(schema());
    ev.assume_expr(expr("principal.age > 18"));
    let r = evaluate(&mut ev, &s, "principal.active");
    assert_outcomes(&r, &[Tr, Fa]);
    let r = evaluate(&mut ev, &s, "principal has age");
    assert_literal(&r, true);
    // ... and so does a `has` known to be true ...
    let mut ev = Evaluator::new(schema());
    ev.assume_expr(expr("principal has nick"));
    let r = evaluate(&mut ev, &s, "principal.active");
    assert_outcomes(&r, &[Tr, Fa]);
    // ... but `iferror`'s first argument proves nothing, nor does an access on
    // a receiver that the two evaluations may resolve differently
    let mut ev = Evaluator::new(schema());
    ev.assume_expr(expr("iferror(principal.active, true)"));
    let (r, _) = run(&mut ev, &s, &expr("principal.active"), &none()).unwrap();
    assert_outcomes(&r, &[Tr, Er]);
    let mut ev = Evaluator::new(schema());
    ev.assume_expr(expr(r#"(if principal has age then principal else User::"bob").name == "x""#));
    let (r, _) = run(&mut ev, &s, &expr("principal.active"), &none()).unwrap();
    assert_outcomes(&r, &[Tr, Fa, Er]);

    // The trail: the right operand runs only after the left evaluated.
    let mut ev = Evaluator::new(schema());
    let r = evaluate(&mut ev, &s, "principal.active && principal.age > 18");
    assert_outcomes(&r, &[Tr, Fa, Er]);
    let ExprKind::And { left, right } = r.expr_kind() else { panic!("{}", show(&r)) };
    assert_outcomes(left, &[Tr, Fa, Er]);
    assert_outcomes(right, &[Tr, Fa]);
}

// ---------------------------------------------------------------------------
// Entities and requests

fn literal(s: &Solver, text: &str) -> Term {
    Term::OptionGet(Arc::new(s.compile(&expr(text)).unwrap().term))
}

fn lucas(s: &Solver) -> PartialEntity {
    PartialEntity {
        uid: EntityUid::new("User", "lucas"),
        name: r#"User::"lucas""#.to_string(),
        attrs: Some(Ok(literal(s, r#"{a: true, active: true, age: 18, b: true, name: "x"}"#))),
        ancestors: Some(vec![]),
        tags: None,
    }
}

fn foo(s: &Solver) -> PartialEntity {
    let attrs = r#"{level: 1, owner: User::"lucas", protected: false}"#;
    PartialEntity {
        uid: EntityUid::new("Document", "foo"),
        name: r#"Document::"foo""#.to_string(),
        attrs: Some(Ok(literal(s, attrs))),
        ancestors: None,
        tags: None,
    }
}

fn request(action: &str, context: Term) -> Request {
    Request {
        principal: Some(EntityUid::new("User", "lucas")),
        action: Some(EntityUid::new("Action", action)),
        resource: Some(EntityUid::new("Document", "foo")),
        context: Some(Ok(context)),
    }
}

#[test]
fn known_entities_and_request_fold_everything() {
    let s = solver(Dims { uids: true, admin: true, ..Dims::default() });
    let r = request("view", literal(&s, "{admin: true}"));
    let e = request_env_of(&r, &schema()).unwrap();
    assert!(e == view());
    let nope = request("nope", literal(&s, "{admin: true}"));
    assert!(request_env_of(&nope, &schema()).is_none());

    let mut ev = Evaluator::new(schema());
    ev.assume_entities(Ok(vec![lucas(&s), foo(&s)])).unwrap();
    ev.assume_request(&r).unwrap();
    for (text, expected) in [
        ("principal.active", true),
        ("principal.age > 17", true),
        ("principal.age > 18", false),
        (r#"principal == User::"lucas""#, true),
        (r#"principal == User::"bob""#, false),
        ("resource.owner == principal", true),
        ("resource.owner.age + 1 > 18", true),
        ("resource.protected || resource.level > 5", false),
        ("context.admin", true),
    ] {
        let (r, _) = run(&mut ev, &s, &expr(text), &none()).unwrap();
        assert_eq!(literal_of(&r), Some(expected), "`{text}`: {}", show(&r));
    }
}

#[test]
fn an_assumed_store_exists() {
    let s = solver(Dims { uids: true, ..Dims::default() });
    let mut ev = Evaluator::new(schema());
    ev.assume_partial_entities(vec![lucas(&s)]);
    // the request is not assumed, so `principal` is symbolic ...
    let e = expr("principal.active");
    let (r, _) = run(&mut ev, &s, &e, &none()).unwrap();
    assert_outcomes(&r, &[Tr, Fa, Er]);
    // ... but pinning it to a known entity folds
    let pinned = vec![expr(r#"principal == User::"lucas""#)];
    let (r, _) = run(&mut ev, &s, &e, &pinned).unwrap();
    assert_literal(&r, true);

    // an entity of which the attributes are unknown still exists
    let mut ev = Evaluator::new(schema());
    let mut unknown = lucas(&s);
    unknown.attrs = None;
    ev.assume_partial_entities(vec![unknown]);
    let (r, _) = run(&mut ev, &s, &e, &pinned).unwrap();
    assert_outcomes(&r, &[Tr, Fa]);
}

#[test]
fn request_in_another_env_is_impossible() {
    let s = solver(Dims { uids: true, admin: true, ..Dims::default() });
    let mut ev = Evaluator::new(schema());
    ev.assume_request(&request("view", literal(&s, "{admin: false}"))).unwrap();
    let r = evaluate(&mut ev, &s, "context.admin");
    assert_literal(&r, false);

    let t = Solver::new(edit(), Dims { admin: true, ..Dims::default() });
    let err = run(&mut ev, &t, &expr("context.admin"), &none()).unwrap_err();
    assert!(matches!(err, EvaluationError::UnsatisfiableAssumptions), "{err:?}");
}

#[test]
fn invalid_data_is_rejected() {
    let s = solver(Dims::default());
    let mut ev = Evaluator::new(schema());
    let err = ev.assume_entities(Err("bad attributes".to_string())).unwrap_err();
    match err {
        EvaluationError::InvalidEntities(m) => assert_eq!(m, "bad attributes"),
        err => panic!("{err:?}"),
    }

    // data that does not fit the schema is found when it is compiled
    let e = expr("principal.active");
    let fails = |entity: PartialEntity| {
        let mut ev = Evaluator::new(schema());
        ev.assume_partial_entities(vec![entity]);
        match run(&mut ev, &s, &e, &none()) {
            Err(EvaluationError::InvalidEntities(m)) => m,
            other => panic!("{other:?}"),
        }
    };
    let mut bad = lucas(&s);
    bad.uid = EntityUid::new("Robot", "r");
    bad.name = r#"Robot::"r""#.to_string();
    assert_eq!(
        fails(bad),
        "entity `Robot::\"r\"` is not valid for the schema (unknown type, or not a member of an \
         enumerated type)"
    );
    let mut bad = lucas(&s);
    bad.attrs = Some(Err("not a record".to_string()));
    assert_eq!(fails(bad), "attributes of `User::\"lucas\"`: not a record");

    // an incomplete request
    let mut r = request("view", literal(&s, "{admin: true}"));
    r.principal = None;
    match ev.assume_request(&r).unwrap_err() {
        EvaluationError::InvalidRequest(m) => assert_eq!(m, "principal is unknown"),
        err => panic!("{err:?}"),
    }
    r.principal = Some(EntityUid::new("User", "lucas"));
    r.context = Some(Err("bad context".to_string()));
    match ev.assume_request(&r).unwrap_err() {
        EvaluationError::InvalidRequest(m) => assert_eq!(m, "bad context"),
        err => panic!("{err:?}"),
    }
    // one whose principal cannot take the action
    r.principal = Some(EntityUid::new("Document", "foo"));
    match ev.assume_request(&r).unwrap_err() {
        EvaluationError::InvalidRequest(m) => {
            assert_eq!(m, "the principal and resource types do not apply to the action")
        }
        err => panic!("{err:?}"),
    }
    // a partial one, checked where it is compiled
    ev.assume_partial_request(PartialRequest {
        principal_type: "User".to_string(),
        principal_eid: None,
        action: EntityUid::new("Action", "view"),
        resource_type: "Document".to_string(),
        resource_eid: None,
        context: Some(Err("no `admin`".to_string())),
    });
    match run(&mut ev, &s, &e, &none()).unwrap_err() {
        EvaluationError::InvalidRequest(m) => assert_eq!(m, "context: no `admin`"),
        err => panic!("{err:?}"),
    }
}

/// The constraints that keep the store a hierarchy are part of every query.
#[test]
fn enforced_constraints_are_in_the_base() {
    let s = solver(Dims::default());
    let mut ev = Evaluator::new(schema());
    let backend = Backend {
        check,
        sym: SymEnv { compile: |e: &Expr<()>| s.compile(e), entities: attributes() },
        policies: |_: &PolicySet, _: &RequestEnv| -> Result<CompiledSet, PolicyError> {
            Err(PolicyError::Other("no policies".to_string()))
        },
        entity: entity_info,
        request: SymRequest {
            principal: literal(&s, "principal"),
            resource: literal(&s, "resource"),
            context: literal(&s, "context"),
        },
    };
    let active = s.compile(&expr("principal.active")).unwrap().term;
    let fact = Term::Eq(Arc::new(active), Arc::new(Term::SomeOf(Arc::new(Term::Bool(true)))));
    let e = expr("principal.active && resource.protected");
    let prepared =
        ev.prepare(&e, &view(), &none(), &backend, &|_: &Vec<Term>| vec![fact.dup()]).unwrap();
    assert_eq!(format!("{:?}", prepared.base), format!("{:?}", [fact]));

    // a policy set that does not compile is reported as such
    ev.assume_policyset_decision(PolicySet::new(), Decision::Allow);
    match ev.prepare(&e, &view(), &none(), &backend, &|_: &Vec<Term>| Vec::new()) {
        Err(EvaluationError::SymCC(m)) => assert_eq!(m, "no policies"),
        other => panic!("{other:?}"),
    }
}

// ---------------------------------------------------------------------------
// Typed expressions and policies

const POLICIES: &str = r#"
permit(principal, action == Action::"view", resource) when { !resource.protected };
permit(principal, action, resource) when { resource.owner == principal };
forbid(principal is User, action, resource) when { principal.age < 18 && resource.level > 1 };
permit(principal is Group, action == Action::"admin", resource);
"#;

fn uid_of(r: &mut Reader) -> EntityRef {
    match r.primary().expr_kind() {
        ExprKind::Lit(Prim::EntityUid(u)) => EntityRef::Uid(u.dup()),
        ExprKind::Slot(_) => EntityRef::Slot,
        other => panic!("{other:?}"),
    }
}

fn scope(r: &mut Reader, var: &str) -> ScopeConstraint {
    r.need(var);
    if r.eat("is") {
        ScopeConstraint::Is(r.word())
    } else if r.eat("==") {
        ScopeConstraint::Eq(uid_of(r))
    } else {
        ScopeConstraint::Any
    }
}

/// The policies of a document.
fn policies(text: &str) -> PolicySet {
    let mut set = PolicySet::new();
    let mut r = Reader { toks: lex(text), at: 0 };
    let mut n: usize = 0;
    while r.at < r.toks.len() {
        let from = r.at;
        let effect = if r.word() == "permit" { Effect::Permit } else { Effect::Forbid };
        r.need("(");
        let principal = scope(&mut r, "principal");
        r.need(",");
        r.need("action");
        let action = if r.eat("==") {
            match uid_of(&mut r) {
                EntityRef::Uid(u) => ActionConstraint::Eq(u),
                EntityRef::Slot => panic!("an action is no slot"),
            }
        } else {
            ActionConstraint::Any
        };
        r.need(",");
        let resource = scope(&mut r, "resource");
        r.need(")");
        let mut clauses = Vec::new();
        while r.eat("when") {
            r.need("{");
            clauses.push(r.expr());
            r.need("}");
        }
        r.need(";");
        let loc = Some(Loc { start: r.toks[from].1, end: r.toks[r.at - 1].2 });
        let when = clauses.into_iter().reduce(|a, b| Expr {
            kind: ExprKind::And { left: Arc::new(a), right: Arc::new(b) },
            loc,
            data: (),
        });
        let linked = matches!(principal, ScopeConstraint::Eq(EntityRef::Slot));
        set.add(Policy {
            id: format!("policy{n}"),
            effect,
            annotations: Arc::new(vec![]),
            loc,
            principal,
            action,
            resource,
            when: when.map(Arc::new),
            principal_slot: if linked { Some(EntityUid::new("User", "lucas")) } else { None },
            resource_slot: None,
        })
        .unwrap();
        n += 1;
    }
    set
}

fn typechecked(schema: &Arc<Schema>) -> TypecheckedPolicySet {
    policies(POLICIES).typecheck(schema, vec![], &check).unwrap()
}

fn solvers(dims: Dims) -> Vec<Solver> {
    [view(), edit(), admin()].into_iter().map(|e| Solver::new(e, dims)).collect()
}

fn solver_of<'a>(all: &'a [Solver], env: &RequestEnv) -> &'a Solver {
    all.iter().find(|s| s.env == *env).unwrap()
}

#[test]
fn pretyped_skips_the_typechecker() {
    let s = solver(Dims::default());
    let mut ev = Evaluator::new(schema());
    let e = expr("principal.age > 18 && resource.protected");
    let (plain, _) = run(&mut ev, &s, &e, &none()).unwrap();
    let queries = ev.solver_queries();

    let typed = typecheck(&Policy::from_when_clause(
        Effect::Permit,
        e.dup(),
        "p".to_string(),
        None,
    ).condition(), &view()).unwrap();
    let pre = Pretyped::new(expr("principal.nonexistent"), Arc::new(typed));
    let (result, _) = run(&mut ev, &s, &pre, &none()).unwrap();
    assert!(erase_metadata(&result) == erase_metadata(&plain));
    assert!(result.data.outcomes().same(plain.data.outcomes()));
    assert_eq!(ev.solver_queries() - queries, queries, "the same queries");

    // an operand without a type is an error where it can be reached, and none
    // where the other one is the literal that keeps it from being evaluated
    let untyped = |text: &str| {
        let mut typed = typecheck(&expr(text), &view()).unwrap();
        if let ExprKind::And { left, right } = &typed.kind {
            let right = Expr { kind: right.kind.dup(), loc: right.loc, data: None };
            typed.kind = ExprKind::And { left: left.clone(), right: Arc::new(right) };
        }
        Pretyped::new(expr(text), Arc::new(typed))
    };
    assert!(matches!(
        run(&mut ev, &s, &untyped("principal.active && resource.protected"), &none()),
        Err(EvaluationError::NotWellTyped { errs }) if errs.is_empty()
    ));
    let (r, _) = run(&mut ev, &s, &untyped("false && resource.protected"), &none()).unwrap();
    assert_literal(&r, false);

    // the plain expression does get typechecked
    assert!(matches!(
        run(&mut ev, &s, &expr("principal.nonexistent"), &none()),
        Err(EvaluationError::NotWellTyped { .. })
    ));
}

#[test]
fn typechecked_policies_evaluate_like_their_conditions() {
    let all = solvers(Dims { level: true, owner: true, ..Dims::default() });
    let mut ev = Evaluator::new(schema());
    let tps = typechecked(&schema());
    assert_eq!(tps.policies().len(), 4);
    for policy in tps.policies() {
        let condition = tps.policy(policy.id()).unwrap().condition();
        for env in policy.request_envs() {
            let s = solver_of(&all, &env);
            let (cached, _) = run(&mut ev, s, policy, &none()).unwrap();
            let (plain, _) = run(&mut ev, s, &condition, &none()).unwrap();
            assert!(erase_metadata(&cached) == erase_metadata(&plain), "{}", policy.id());
            assert!(cached.data.outcomes().same(plain.data.outcomes()));
            assert!(equivalent(&mut ev, s, policy, &cached, &none()));
            // what the set knew statically covers what the evaluator found
            for o in [Tr, Fa, Er] {
                if cached.data.can(o) {
                    assert!(policy.outcomes(&env).unwrap().contains(o));
                }
            }
        }
    }
}

#[test]
fn other_schema_takes_the_fallback() {
    let bigger = schema_of("bigger", vec![view(), edit(), admin()]);
    let tps = typechecked(&schema());
    let policy = tps.get(&"policy0".to_string()).unwrap();
    assert!(!policy.same_schema(&bigger));
    let s = solver(Dims::default());
    let mut ev = Evaluator::new(bigger);
    let condition = tps.policy(policy.id()).unwrap().condition();
    let (cached, _) = run(&mut ev, &s, policy, &none()).unwrap();
    let (plain, _) = run(&mut ev, &s, &condition, &none()).unwrap();
    assert!(erase_metadata(&cached) == erase_metadata(&plain));
}

fn fold(set: TypecheckedPolicySet, ev: &mut Evaluator, all: &[Solver]) -> TypecheckedPolicySet {
    let mut fold = SymbolicFold::symbolic_fold(set, ev).unwrap();
    while let Some((policy, env)) = fold.next() {
        let (r, _) = run(ev, solver_of(all, env), policy, &none()).unwrap();
        fold.record(&r).unwrap();
    }
    fold.finish()
}

fn conditions(set: &TypecheckedPolicySet) -> Vec<String> {
    let mut out = Vec::new();
    for p in set.policies() {
        for e in p.request_envs() {
            out.push(format!("{:?}", p.typed_condition(&e)));
        }
    }
    out
}

#[test]
fn symbolic_fold_stores_typed_residuals_and_outcomes() {
    let all = solvers(Dims { level: true, owner: true, ..Dims::default() });
    let mut ev = Evaluator::new(schema());
    ev.assume_expr(expr("!resource.protected"));
    ev.assume_expr(expr("if principal is User then principal.age >= 18 else true"));
    let tps = fold(typechecked(&schema()), &mut ev, &all);

    // `true` in a `view` environment under the assumption
    let p0 = tps.get(&"policy0".to_string()).unwrap();
    let folded = p0.typed_condition(&view()).unwrap().as_ref().unwrap();
    assert_eq!(show(folded), "true");
    assert!(folded.data.is_some(), "the folded literal keeps its node's type");
    assert!(p0.outcomes(&view()).unwrap().same(&outcomes(&[Tr])));
    // and `false` in an `edit` environment: the action constraint
    assert!(p0.outcomes(&edit()).unwrap().same(&outcomes(&[Fa])));

    // the forbid cannot fire for an adult
    let p2 = tps.get(&"policy2".to_string()).unwrap();
    assert!(!p2.outcomes(&view()).unwrap().contains(Tr));

    // the owner check stays open, with its type on every node
    let p1 = tps.get(&"policy1".to_string()).unwrap();
    let folded = p1.typed_condition(&view()).unwrap().as_ref().unwrap();
    assert_eq!(show(folded), show(&expr("resource.owner == principal")));
    assert!(folded.data.is_some());
    assert!(p1.outcomes(&view()).unwrap().same(&outcomes(&[Tr, Fa])));

    // folding again changes nothing
    let before = conditions(&tps);
    let again = fold(tps, &mut ev, &all);
    assert_eq!(before, conditions(&again));
}

#[test]
fn symbolic_fold_needs_the_evaluators_schema() {
    let ev = Evaluator::new(schema_of("bigger", vec![view(), edit(), admin()]));
    let tps = typechecked(&schema());
    assert!(matches!(
        SymbolicFold::symbolic_fold(tps, &ev),
        Err(EvaluationError::SchemaMismatch)
    ));
}

/// The guards that are kept are listed once each, in the order of the
/// expression.
#[test]
fn the_kept_guards_are_listed_once() {
    let s = solver(Dims::default());
    let b = backend(&s);
    for (text, kept) in [
        (r#"principal has nick && principal.nick == "al""#, vec!["principal has nick"]),
        ("principal has nick && principal.active", vec![]),
        (r#"principal has name && principal.name == "x""#, vec![]),
        (
            r#"(principal has nick && principal.nick == "al") || (principal has nick && principal.nick == "bo")"#,
            vec!["principal has nick"],
        ),
    ] {
        let typed = typecheck(&expr(text), &view()).unwrap();
        let expected: Vec<Expr<()>> = kept.into_iter().map(expr).collect();
        assert_eq!(b.sym.kept_guards(&typed), expected, "{text}");
    }
}

#[test]
fn typed_of_types_every_node() {
    let s = solver(Dims { level: true, ..Dims::default() });
    let mut ev = Evaluator::new(schema());
    let e = expr("principal.age > 18 && (resource.protected || resource.level == 3)");
    let (result, _) = run(&mut ev, &s, &e, &none()).unwrap();
    let typed = typed_of(&result).unwrap();
    assert_eq!(show(&typed), show(&erase_metadata(&result)));
    // evaluating the typed residual again gives the same result
    let pre = Pretyped::new(erase_metadata(&result), Arc::new(typed));
    let (again, _) = run(&mut ev, &s, &pre, &none()).unwrap();
    assert!(erase_metadata(&again) == erase_metadata(&result));
    assert!(again.data.outcomes().same(result.data.outcomes()));

    // without types there is nothing to give back
    assert!(matches!(
        typed_of(&with_default_metadata(&e)),
        Err(EvaluationError::Internal("an evaluated expression has a node without a type"))
    ));
}

/// `e` with what the request environment decides folded away.
fn fold_known(e: &Expr<()>, env: &RequestEnv) -> Expr<()> {
    let known = |e: &Expr<()>| match e.expr_kind() {
        ExprKind::Lit(Prim::Bool(b)) => Some(*b),
        ExprKind::Is { expr, entity_type } => match expr.expr_kind() {
            ExprKind::Var(Var::Principal) => Some(*entity_type == env.principal),
            ExprKind::Var(Var::Resource) => Some(*entity_type == env.resource),
            _ => None,
        },
        ExprKind::BinaryApp { op: BinaryOp::Eq, arg1, arg2 } => {
            match (arg1.expr_kind(), arg2.expr_kind()) {
                (ExprKind::Var(Var::Action), ExprKind::Lit(Prim::EntityUid(u))) => {
                    Some(*u == env.action)
                }
                _ => None,
            }
        }
        _ => None,
    };
    let made = |kind: ExprKind<()>| Expr { kind, loc: e.loc, data: () };
    if let Some(b) = known(e) {
        return made(ExprKind::Lit(Prim::Bool(b)));
    }
    match e.expr_kind() {
        ExprKind::And { left, right } => {
            let (l, r) = (fold_known(left, env), fold_known(right, env));
            match known(&l) {
                Some(true) => r,
                Some(false) => l,
                None => made(ExprKind::And { left: Arc::new(l), right: Arc::new(r) }),
            }
        }
        ExprKind::Or { left, right } => {
            let (l, r) = (fold_known(left, env), fold_known(right, env));
            match known(&l) {
                Some(true) => l,
                Some(false) => r,
                None => made(ExprKind::Or { left: Arc::new(l), right: Arc::new(r) }),
            }
        }
        _ => e.dup(),
    }
}

type Interpreted = (Residual, Result<Option<Expr<Option<Type>>>, StaticError>);

fn folder(r: &Residual, env: &RequestEnv) -> Option<Interpreted> {
    let typed = typecheck(&fold_known(&r.to_expr(), env), env).unwrap();
    let new = Residual::try_from_typed_expr(&typed, &SlotEnv::new()).unwrap();
    Some((new, Ok(Some(typed))))
}

#[test]
fn constant_fold_then_symbolic_fold_agree() {
    let all = solvers(Dims { level: true, owner: true, ..Dims::default() });
    let mut ev = Evaluator::new(schema());
    ev.assume_expr(expr("if principal is User then principal.age >= 18 else true"));
    let plain = fold(typechecked(&schema()), &mut ev, &all);
    let folded = typechecked(&schema()).constant_fold(&folder);
    // the scopes are decided: of the first policy nothing is left but `false`
    // where the action is another one
    let known = |env: &RequestEnv| folded.policies()[0].outcomes(env).unwrap().same(&outcomes(&[Fa]));
    assert!(known(&edit()) && !known(&view()));
    let folded = fold(folded, &mut ev, &all);
    for (a, b) in plain.policies().into_iter().zip(folded.policies()) {
        assert_eq!(a.id(), b.id());
        for env in a.request_envs() {
            assert!(a.outcomes(&env).unwrap().same(b.outcomes(&env).unwrap()));
        }
    }
}

// ---------------------------------------------------------------------------
// Normal forms of what was evaluated

fn can_error_by_metadata(atom: &Expr<EvaluationMetadata>) -> bool {
    !atom.data.is_error_free()
}

/// `text` with `a`, `c` and `e` for atoms.
fn t(text: &str) -> Expr<()> {
    let words: Vec<String> = text
        .replace('(', "( ")
        .replace(')', " )")
        .replace('!', "! ")
        .split(' ')
        .map(|w| match w {
            "a" => "principal.active".to_string(),
            "c" => "resource.protected".to_string(),
            "e" => "(principal.age + 1 < 18)".to_string(),
            w => w.to_string(),
        })
        .collect();
    expr(&words.join(" "))
}

/// The normal form of `input` as evaluated under the assumptions of `ev`, which
/// must denote the same.
fn normal_form(ev: &mut Evaluator, s: &Solver, input: &Expr<()>) -> Dnf<EvaluationMetadata> {
    let (evaluated, _) = run(ev, s, input, &none()).unwrap();
    let dnf = Dnf::of(&evaluated, &can_error_by_metadata, DEFAULT_MAX_CUBES).unwrap();
    let rewritten = with_default_metadata(&dnf.to_expr());
    assert!(equivalent(ev, s, input, &rewritten, &none()), "{}", show(&dnf.to_expr()));
    dnf
}

#[test]
fn evaluator_metadata_drops_error_cubes() {
    let s = solver(Dims::default());
    let input = t("if e then false else false");

    // without assumptions `e` may overflow: the never-true cube stays
    let mut ev = Evaluator::new(schema());
    let dnf = normal_form(&mut ev, &s, &input);
    assert!(dnf.to_expr() == t("e && false"), "{}", show(&dnf.to_expr()));

    // assumed error-free, the cube has nothing to reproduce
    let mut ev = Evaluator::new(schema());
    ev.assume_expr_outcomes(t("e"), outcomes(&[Tr, Fa]));
    let dnf = normal_form(&mut ev, &s, &input);
    assert!(dnf.to_expr() == t("false"), "{}", show(&dnf.to_expr()));
    assert!(dnf.cubes().is_empty());
}

#[test]
fn unvisited_branches_keep_their_error_cubes() {
    let s = solver(Dims::default());
    let input = t("if e then a else (c && false)");

    // `e` cannot be false: the else branch is never visited and keeps the
    // default metadata, so `c` counts as able to error and its cube stays
    let mut ev = Evaluator::new(schema());
    ev.assume_expr_outcomes(t("e"), outcomes(&[Tr, Er]));
    let dnf = normal_form(&mut ev, &s, &input);
    assert!(dnf.to_expr() == t("(e && a) || (!e && c && false)"), "{}", show(&dnf.to_expr()));

    // visited, `c && false` folds to `false` first
    let mut ev = Evaluator::new(schema());
    ev.assume_expr_outcomes(t("e"), outcomes(&[Tr, Fa]));
    ev.assume_expr(t("c || true"));
    let dnf = normal_form(&mut ev, &s, &input);
    assert!(dnf.to_expr() == t("e && a"), "{}", show(&dnf.to_expr()));
}

#[test]
fn splitting_evaluating_and_converting() {
    let s = solver(Dims { level: true, ..Dims::default() });
    let mut ev = Evaluator::new(schema());
    ev.assume_expr(expr("resource.protected"));
    let input = expr("(if resource.protected then principal.age else resource.level) == 19");
    let split = split_atoms(&input, DEFAULT_MAX_SPLIT_NODES).unwrap();
    let (evaluated, _) = run(&mut ev, &s, &split, &none()).unwrap();
    let dnf = Dnf::of(&evaluated, &can_error_by_metadata, DEFAULT_MAX_CUBES).unwrap();
    // of the two cubes, the one for the level is dead under the assumption
    assert_eq!(dnf.true_cubes().len(), 1);
    assert!(dnf.to_expr() == expr("principal.age == 19"), "{}", show(&dnf.to_expr()));
    let rewritten = with_default_metadata(&dnf.to_expr());
    assert!(equivalent(&mut ev, &s, &input, &rewritten, &none()));
}

// ---------------------------------------------------------------------------
// The simplifier

fn doc_envs() -> Vec<RequestEnv> {
    vec![env("User", "view", "Doc"), env("User", "edit", "Doc")]
}

/// The findings of a policy document under assumptions, as source text and
/// kind.
fn findings_under(
    text: &str,
    assumptions: &[&str],
    envs: Vec<RequestEnv>,
) -> Result<Vec<(String, FindingKind)>, SimplifyError> {
    let dims = Dims { ab: true, admin: true, nick: true, tag: true, ..Dims::default() };
    let all: Vec<Solver> = envs.iter().map(|e| Solver::new(e.dup(), dims)).collect();
    let mut ev = Evaluator::new(schema_of("docs", envs));
    let given: Vec<Assumption> = assumptions
        .iter()
        .map(|a| Assumption {
            origin: "entity type User".to_string(),
            expression: expr(a),
            source: a.to_string(),
        })
        .collect();
    let extras: Vec<Expr<()>> = assumptions.iter().map(|a| expr(a)).collect();
    let validate = |p: &Policy| {
        let mut errs = Vec::new();
        for s in &all {
            if let PolicyCheck::Fail(e) = check(p, &s.env).check {
                errs.extend(e);
            }
        }
        errs
    };
    let mut s = simplify(&ev, Ok(policies(text)), &given, &validate, &check, &message)?;
    loop {
        let result = match s.next() {
            SimplifyStep::Probe(env) => {
                run(&mut ev, solver_of(&all, env), &expr("true"), &extras).map(|r| r.1)
            }
            SimplifyStep::Evaluate(policy, env) => {
                run(&mut ev, solver_of(&all, env), policy, &extras).map(|r| r.1)
            }
            SimplifyStep::Done => break,
        };
        s.record(result)?;
    }
    let at = |f: &cedar_analysis::simplify::Finding| {
        text[f.offset..f.offset + f.length].to_string()
    };
    Ok(s.findings().iter().map(|f| (at(f), f.kind)).collect())
}

fn findings(text: &str) -> Vec<(String, FindingKind)> {
    findings_under(text, &[], doc_envs()).unwrap()
}

fn one(text: &str, kind: FindingKind) -> Vec<(String, FindingKind)> {
    vec![(text.to_string(), kind)]
}

#[test]
fn dead_branch_innermost_cause() {
    let found = findings(
        "permit(principal, action, resource) when {
           (principal.a && principal.b) || (principal.a && !principal.a)
         };",
    );
    assert_eq!(found, one("principal.a", FindingKind::NeverFalse));
}

#[test]
fn clean_policy() {
    let found = findings(
        "permit(principal, action, resource) when {
           principal.a && (principal.b || resource.protected)
         };",
    );
    assert!(found.is_empty(), "{found:?}");
}

#[test]
fn every_environment_must_agree() {
    let found = findings(
        r#"permit(principal, action, resource) when {
           (action == Action::"view" || action == Action::"edit") && context.admin
         };"#,
    );
    let text = r#"action == Action::"view" || action == Action::"edit""#;
    assert_eq!(found, one(text, FindingKind::NeverFalse));
}

#[test]
fn inapplicable_environments_are_dropped() {
    let found = findings(
        r#"permit(principal, action == Action::"view", resource) when {
           principal.age > 18 && principal.age + 1 > 18
         };"#,
    );
    assert_eq!(found, one("principal.age + 1 > 18", FindingKind::NeverFalse));
}

#[test]
fn not_evaluated_everywhere_is_not_judged() {
    let found = findings(
        r#"permit(principal, action, resource) when {
           action == Action::"view" || (context.admin && context.admin)
         };"#,
    );
    assert!(found.is_empty(), "{found:?}");
}

#[test]
fn false_environments_are_dropped_for_later_nodes() {
    let found = findings(
        r#"permit(principal, action, resource) when {
           action == Action::"view" && context.admin && context.admin
         };"#,
    );
    assert_eq!(found, one("context.admin", FindingKind::NeverFalse));
}

#[test]
fn whole_policy_and_errors() {
    let found = findings(
        r#"permit(principal, action, resource) when { false };
           permit(principal, action, resource) when { principal.age + 1 > principal.age };"#,
    );
    assert_eq!(found.len(), 2, "{found:?}");
    assert_eq!(found[0].1, FindingKind::NeverTrue);
    assert!(found[0].0.starts_with("permit"), "{found:?}");
    assert_eq!(
        found[1],
        ("principal.age + 1 > principal.age".to_string(), FindingKind::NeverFalse)
    );
}

#[test]
fn always_an_error() {
    let found = findings(
        "permit(principal, action, resource) when { 1 + 9223372036854775807 > 0 };",
    );
    assert_eq!(found.len(), 1, "{found:?}");
    assert_eq!(found[0].1, FindingKind::AlwaysError);
}

#[test]
fn invalid_and_templates_are_skipped() {
    let found = findings(
        r#"permit(principal, action, resource) when { principal.nope };
           permit(principal == ?principal, action, resource) when { principal.a && !principal.a };"#,
    );
    assert!(found.is_empty(), "{found:?}");
}

#[test]
fn false_conjunct_is_judged_wherever_it_sits() {
    for policy in [
        r#"permit(principal, action, resource) when { (action == Action::"view") && context.admin };"#,
        r#"permit(principal, action, resource) when { action == Action::"view" } when { context.admin };"#,
        r#"permit(principal, action, resource) when { (action == Action::"view" && principal.a) && principal.b };"#,
        r#"permit(principal, action, resource) when { (!(action == Action::"edit")) && principal.b };"#,
    ] {
        let found = findings(policy);
        assert!(found.is_empty(), "{policy}: {found:?}");
    }
}

#[test]
fn literals_are_not_reported() {
    let found = findings(
        "permit(principal, action, resource) when { true && principal.a && principal.a };",
    );
    assert_eq!(found, one("principal.a", FindingKind::NeverFalse));
}

#[test]
fn unguarded_assumption_names_its_environment() {
    let envs = || vec![env("User", "view", "Doc"), env("Group", "view", "Doc")];
    let text = "permit(principal, action, resource);";
    let err = findings_under(text, &["principal.a"], envs()).unwrap_err();
    let m = err.describe(&message);
    assert!(m.contains("entity type User"), "{m}");
    assert!(m.contains("(`principal.a`)"), "{m}");
    assert!(m.contains("principal: Group"), "{m}");
    // the guard makes it typecheck everywhere; a policy without a condition is
    // not reported
    let guarded = "if principal is User then principal.a else true";
    assert!(findings_under(text, &[guarded], envs()).unwrap().is_empty());
    let found = findings_under(
        "permit(principal is User, action, resource) when { !principal.a };",
        &[guarded],
        envs(),
    )
    .unwrap();
    assert_eq!(found, one("principal.a", FindingKind::NeverFalse));
}

#[test]
fn contradictory_assumptions_are_an_error() {
    let err =
        findings_under("", &["principal.a && !principal.a"], doc_envs()).unwrap_err();
    assert!(matches!(err, SimplifyError::UnsatisfiableAssumptions { .. }), "{err:?}");
}

#[test]
fn a_document_that_does_not_parse_is_an_error() {
    let ev = Evaluator::new(schema());
    let r = simplify(&ev, Err("unexpected token".to_string()), &vec![], &valid, &check, &message);
    match r {
        Err(SimplifyError::Parse(m)) => assert_eq!(m, "unexpected token"),
        other => panic!("{other:?}"),
    }
}

/// Another failure of a probe is passed on as it is.
#[test]
fn a_probe_that_fails_is_an_evaluation_error() {
    let err = probe_error(EvaluationError::SchemaMismatch, &view());
    assert!(
        matches!(err, SimplifyError::Evaluation(EvaluationError::SchemaMismatch)),
        "{err:?}"
    );
    match probe_error(EvaluationError::UnsatisfiableAssumptions, &view()) {
        SimplifyError::UnsatisfiableAssumptions { principal, .. } => {
            assert_eq!(principal, view().principal)
        }
        other => panic!("{other:?}"),
    }
}

const PRESENT: &str = r#"if principal is User then principal has nick && principal.hasTag("t") else true"#;

fn when(text: &str) -> String {
    format!("permit(principal, action, resource) when {{ {text} }};")
}

#[test]
fn needed_guards_are_not_reported() {
    for text in [
        r#"principal has nick && principal.nick == "al""#,
        r#"if principal has nick then principal.nick == "al" else false"#,
        r#"principal.hasTag("t") && principal.getTag("t") > 1"#,
        r#"principal has nick && principal.nick == "al" && principal.hasTag("t") && principal.getTag("t") > 1"#,
    ] {
        let found = findings_under(&when(text), &[PRESENT], doc_envs()).unwrap();
        assert!(found.is_empty(), "`{text}`: {found:?}");
    }
    // the guarded scope is itself always true: that is the finding
    let text = "principal has nick && principal.nick == principal.nick";
    let found = findings_under(&when(text), &[PRESENT], doc_envs()).unwrap();
    assert_eq!(found, one("principal.nick == principal.nick", FindingKind::NeverFalse));
}

#[test]
fn unneeded_present_guard_is_reported() {
    for (text, guard) in [
        ("principal has nick && principal.a", "principal has nick"),
        ("principal.a && principal has nick", "principal has nick"),
        ("if principal has nick then principal.a else principal.b", "principal has nick"),
        (r#"principal.hasTag("t") && principal.a"#, r#"principal.hasTag("t")"#),
    ] {
        let found = findings_under(&when(text), &[PRESENT], doc_envs()).unwrap();
        assert_eq!(found, one(guard, FindingKind::NeverFalse), "`{text}`");
    }
}

// ---------------------------------------------------------------------------
// Errors that need more than text

#[test]
fn a_typed_expression_that_is_not_boolean_is_refused() {
    let s = solver(Dims::default());
    let mut ev = Evaluator::new(schema());
    let typed = typecheck(&expr("principal.age"), &view()).unwrap();
    let pre = Pretyped::new(expr("principal.age"), Arc::new(typed));
    match run(&mut ev, &s, &pre, &none()) {
        Err(EvaluationError::NotBoolean { ty: Type::Long }) => {}
        other => panic!("{other:?}"),
    }
    let untyped = Expr { kind: ExprKind::Lit(Prim::Bool(true)), loc: None, data: None };
    match run(&mut ev, &s, &Pretyped::new(expr("true"), Arc::new(untyped)), &none()) {
        Err(EvaluationError::NotWellTyped { errs }) => assert!(errs.is_empty()),
        other => panic!("{other:?}"),
    }
}

#[test]
fn nesting_limits_an_evaluation() {
    let s = solver(Dims::default());
    let mut ev = Evaluator::new(schema());
    let mut typed = typecheck(&expr("principal.active"), &view()).unwrap();
    for _ in 0..1000 {
        typed = Expr {
            kind: ExprKind::UnaryApp { op: UnaryOp::Not, arg: Arc::new(typed) },
            loc: None,
            data: Some(boolean()),
        };
    }
    let pre = Pretyped::new(expr("true"), Arc::new(typed));
    assert!(matches!(
        run(&mut ev, &s, &pre, &none()),
        Err(EvaluationError::RecursionLimit)
    ));
}

#[test]
fn a_compiler_error_is_handed_on() {
    let s = solver(Dims::default());
    let mut ev = Evaluator::new(schema());
    let b = backend(&s);
    let failing = Backend {
        check,
        sym: SymEnv {
            compile: |_: &Expr<()>| -> Result<Compiled, String> { Err("no term".to_string()) },
            entities: attributes(),
        },
        policies: |p: &PolicySet, e: &RequestEnv| (b.policies)(p, e),
        entity: entity_info,
        request: SymRequest {
            principal: literal(&s, "principal"),
            resource: literal(&s, "resource"),
            context: literal(&s, "context"),
        },
    };
    match ev.prepare(&expr("principal.active"), &view(), &none(), &failing, &nothing) {
        Err(EvaluationError::SymCC(m)) => assert_eq!(m, "no term"),
        other => panic!("{other:?}"),
    }
}
