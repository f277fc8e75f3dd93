//! Policies typechecked in every request environment.

#![allow(dead_code)]

use std::sync::Arc;

use cedar_analysis::ast::{
    BinaryOp, Data, EntityUid, Expr, ExprKind, Loc, PatternElem, Prim, SlotId, UnaryOp, Var,
};
use cedar_analysis::outcome::{EvaluationOutcome, Outcomes};
use cedar_analysis::policy::{
    ActionConstraint, Effect, EntityRef, Policy, PolicySet, ScopeConstraint,
};
use cedar_analysis::residual::{Residual, ResidualKind, Val};
use cedar_analysis::slots::{substitute_slots, SlotEnv};
use cedar_analysis::typechecked::{
    all_outcomes, typecheck_expr, Checked, PolicyCheck, StaticError, Typecheckable, TypecheckError,
    TypecheckedPolicySet,
};
use cedar_analysis::types::{BoolType, RequestEnv, Schema, Type};
use EvaluationOutcome::{Error as Er, False as Fa, True as Tr};

// ---------------------------------------------------------------------------
// A reader and a printer for expressions

#[derive(Clone, Debug, PartialEq)]
enum Tok {
    Word(String),
    Num(i64),
    Text(String),
    Sym(String),
    Slot(String),
}

struct Reader {
    toks: Vec<(Tok, usize, usize)>,
    at: usize,
}

fn lex(text: &str) -> Vec<(Tok, usize, usize)> {
    let chars: Vec<(usize, char)> = text.char_indices().collect();
    let offset = |i: usize| chars.get(i).map_or(text.len(), |c| c.0);
    let mut out = Vec::new();
    let mut i: usize = 0;
    while i < chars.len() {
        let c = chars[i].1;
        let start = i;
        if c.is_whitespace() {
            i += 1;
            continue;
        }
        let tok = if c.is_alphabetic() || c == '_' {
            while i < chars.len() && (chars[i].1.is_alphanumeric() || chars[i].1 == '_') {
                i += 1;
            }
            Tok::Word(chars[start..i].iter().map(|c| c.1).collect())
        } else if c.is_ascii_digit() {
            while i < chars.len() && chars[i].1.is_ascii_digit() {
                i += 1;
            }
            let digits: String = chars[start..i].iter().map(|c| c.1).collect();
            Tok::Num(digits.parse().unwrap())
        } else if c == '"' {
            i += 1;
            let mut s = String::new();
            while chars[i].1 != '"' {
                if chars[i].1 == '\\' {
                    s.push('\\');
                    i += 1;
                }
                s.push(chars[i].1);
                i += 1;
            }
            i += 1;
            Tok::Text(s)
        } else if c == '?' {
            i += 1;
            while i < chars.len() && chars[i].1.is_alphabetic() {
                i += 1;
            }
            Tok::Slot(chars[start + 1..i].iter().map(|c| c.1).collect())
        } else {
            let two: String = chars[i..].iter().take(2).map(|c| c.1).collect();
            if ["&&", "||", "==", "!=", "<=", ">=", "::"].contains(&two.as_str()) {
                i += 2;
                Tok::Sym(two)
            } else {
                i += 1;
                Tok::Sym(c.to_string())
            }
        };
        out.push((tok, offset(start), offset(i)));
    }
    out
}

fn unescape(s: &str) -> String {
    let mut out = String::new();
    let mut chars = s.chars();
    while let Some(c) = chars.next() {
        out.push(if c == '\\' { chars.next().unwrap() } else { c });
    }
    out
}

fn pattern(s: &str) -> Vec<PatternElem> {
    let mut out = Vec::new();
    let mut chars = s.chars();
    while let Some(c) = chars.next() {
        out.push(match c {
            '\\' => PatternElem::Char(chars.next().unwrap()),
            '*' => PatternElem::Wildcard,
            c => PatternElem::Char(c),
        });
    }
    out
}

fn mk(kind: ExprKind<()>) -> Expr<()> {
    Expr { kind, loc: None, data: () }
}

fn un(op: UnaryOp, arg: Expr<()>) -> Expr<()> {
    mk(ExprKind::UnaryApp { op, arg: Arc::new(arg) })
}

fn bin(op: BinaryOp, a: Expr<()>, b: Expr<()>) -> Expr<()> {
    mk(ExprKind::BinaryApp { op, arg1: Arc::new(a), arg2: Arc::new(b) })
}

impl Reader {
    fn is(&self, s: &str) -> bool {
        match self.toks.get(self.at) {
            Some((Tok::Sym(x), _, _)) | Some((Tok::Word(x), _, _)) => x == s,
            _ => false,
        }
    }

    fn eat(&mut self, s: &str) -> bool {
        let yes = self.is(s);
        if yes {
            self.at += 1;
        }
        yes
    }

    fn need(&mut self, s: &str) {
        assert!(self.eat(s), "expected `{s}` at {:?}", self.toks.get(self.at));
    }

    fn word(&mut self) -> String {
        match self.toks[self.at].0.clone() {
            Tok::Word(w) => {
                self.at += 1;
                w
            }
            t => panic!("expected a name, got {t:?}"),
        }
    }

    /// `e` with the range of the text from token `from` up to here.
    fn located(&self, from: usize, e: Expr<()>) -> Expr<()> {
        let loc = Loc { start: self.toks[from].1, end: self.toks[self.at - 1].2 };
        Expr { kind: e.kind, loc: Some(loc), data: () }
    }

    fn expr(&mut self) -> Expr<()> {
        let from = self.at;
        if self.eat("if") {
            let c = self.expr();
            self.need("then");
            let a = self.expr();
            self.need("else");
            let b = self.expr();
            let e = mk(ExprKind::If {
                test_expr: Arc::new(c),
                then_expr: Arc::new(a),
                else_expr: Arc::new(b),
            });
            return self.located(from, e);
        }
        let mut e = self.conjunction();
        while self.eat("||") {
            let r = self.conjunction();
            e = mk(ExprKind::Or { left: Arc::new(e), right: Arc::new(r) });
            e = self.located(from, e);
        }
        e
    }

    fn conjunction(&mut self) -> Expr<()> {
        let from = self.at;
        let mut e = self.relation();
        while self.eat("&&") {
            let r = self.relation();
            e = mk(ExprKind::And { left: Arc::new(e), right: Arc::new(r) });
            e = self.located(from, e);
        }
        e
    }

    fn relation(&mut self) -> Expr<()> {
        let from = self.at;
        let l = self.sum();
        let e = if self.eat("==") {
            let r = self.sum();
            bin(BinaryOp::Eq, l, r)
        } else if self.eat("!=") {
            let r = self.sum();
            un(UnaryOp::Not, bin(BinaryOp::Eq, l, r))
        } else if self.eat("<=") {
            let r = self.sum();
            bin(BinaryOp::LessEq, l, r)
        } else if self.eat("<") {
            let r = self.sum();
            bin(BinaryOp::Less, l, r)
        } else if self.eat(">=") {
            let r = self.sum();
            un(UnaryOp::Not, bin(BinaryOp::Less, l, r))
        } else if self.eat(">") {
            let r = self.sum();
            un(UnaryOp::Not, bin(BinaryOp::LessEq, l, r))
        } else if self.eat("in") {
            let r = self.sum();
            bin(BinaryOp::In, l, r)
        } else if self.eat("has") {
            let attr = self.word();
            mk(ExprKind::HasAttr { expr: Arc::new(l), attr })
        } else if self.eat("is") {
            let entity_type = self.word();
            mk(ExprKind::Is { expr: Arc::new(l), entity_type })
        } else if self.eat("like") {
            let Tok::Text(s) = self.toks[self.at].0.clone() else { panic!("expected a pattern") };
            self.at += 1;
            mk(ExprKind::Like { expr: Arc::new(l), pattern: Arc::new(pattern(&s)) })
        } else {
            return l;
        };
        self.located(from, e)
    }

    fn sum(&mut self) -> Expr<()> {
        let from = self.at;
        let mut e = self.product();
        loop {
            let op = if self.eat("+") {
                BinaryOp::Add
            } else if self.eat("-") {
                BinaryOp::Sub
            } else {
                return e;
            };
            let r = self.product();
            e = bin(op, e, r);
            e = self.located(from, e);
        }
    }

    fn product(&mut self) -> Expr<()> {
        let from = self.at;
        let mut e = self.unary();
        while self.eat("*") {
            let r = self.unary();
            e = bin(BinaryOp::Mul, e, r);
            e = self.located(from, e);
        }
        e
    }

    fn unary(&mut self) -> Expr<()> {
        let from = self.at;
        if self.eat("!") {
            let e = self.unary();
            let e = un(UnaryOp::Not, e);
            return self.located(from, e);
        }
        if self.eat("-") {
            let e = self.unary();
            let e = un(UnaryOp::Neg, e);
            return self.located(from, e);
        }
        self.member()
    }

    fn args(&mut self, close: &str) -> Vec<Expr<()>> {
        let mut out = Vec::new();
        while !self.eat(close) {
            out.push(self.expr());
            if !self.is(close) {
                self.need(",");
            }
        }
        out
    }

    fn member(&mut self) -> Expr<()> {
        let from = self.at;
        let mut e = self.primary();
        loop {
            if self.eat("[") {
                let Tok::Text(attr) = self.toks[self.at].0.clone() else { panic!("expected a key") };
                self.at += 1;
                self.need("]");
                e = mk(ExprKind::GetAttr { expr: Arc::new(e), attr });
                e = self.located(from, e);
                continue;
            }
            if !self.eat(".") {
                return e;
            }
            let name = self.word();
            e = if self.eat("(") {
                let mut args = self.args(")");
                let op = match name.as_str() {
                    "isEmpty" => {
                        assert!(args.is_empty());
                        e = un(UnaryOp::IsEmpty, e);
                        e = self.located(from, e);
                        continue;
                    }
                    "toDays" => {
                        let args = Arc::new(vec![e]);
                        e = mk(ExprKind::ExtensionFunctionApp { fn_name: name, args });
                        e = self.located(from, e);
                        continue;
                    }
                    "contains" => BinaryOp::Contains,
                    "containsAll" => BinaryOp::ContainsAll,
                    "containsAny" => BinaryOp::ContainsAny,
                    "hasTag" => BinaryOp::HasTag,
                    "getTag" => BinaryOp::GetTag,
                    other => panic!("unknown method {other}"),
                };
                assert_eq!(args.len(), 1);
                bin(op, e, args.pop().unwrap())
            } else {
                mk(ExprKind::GetAttr { expr: Arc::new(e), attr: name })
            };
            e = self.located(from, e);
        }
    }

    fn primary(&mut self) -> Expr<()> {
        let from = self.at;
        let tok = self.toks[from].0.clone();
        self.at += 1;
        let e = match tok {
            Tok::Num(n) => mk(ExprKind::Lit(Prim::Long(n))),
            Tok::Text(s) => mk(ExprKind::Lit(Prim::String(unescape(&s)))),
            Tok::Slot(s) => mk(ExprKind::Slot(if s == "principal" {
                SlotId::Principal
            } else {
                SlotId::Resource
            })),
            Tok::Sym(s) => match s.as_str() {
                "(" => {
                    let e = self.expr();
                    self.need(")");
                    return e;
                }
                "[" => mk(ExprKind::SetLit(Arc::new(self.args("]")))),
                "{" => {
                    let mut fields = Vec::new();
                    while !self.eat("}") {
                        let key = self.word();
                        self.need(":");
                        fields.push((key, self.expr()));
                        if !self.is("}") {
                            self.need(",");
                        }
                    }
                    mk(ExprKind::record(fields).unwrap())
                }
                other => panic!("unexpected `{other}`"),
            },
            Tok::Word(w) => match w.as_str() {
                "true" => mk(ExprKind::Lit(Prim::Bool(true))),
                "false" => mk(ExprKind::Lit(Prim::Bool(false))),
                "principal" => mk(ExprKind::Var(Var::Principal)),
                "action" => mk(ExprKind::Var(Var::Action)),
                "resource" => mk(ExprKind::Var(Var::Resource)),
                "context" => mk(ExprKind::Var(Var::Context)),
                _ => {
                    let mut ty = w;
                    let mut uid = None;
                    while self.eat("::") {
                        if let Tok::Text(s) = self.toks[self.at].0.clone() {
                            self.at += 1;
                            uid = Some(unescape(&s));
                        } else {
                            ty = format!("{ty}::{}", self.word());
                        }
                    }
                    match uid {
                        Some(eid) => mk(ExprKind::Lit(Prim::EntityUid(EntityUid::new(&ty, &eid)))),
                        None => {
                            self.need("(");
                            let args = Arc::new(self.args(")"));
                            mk(ExprKind::ExtensionFunctionApp { fn_name: ty, args })
                        }
                    }
                }
            },
        };
        self.located(from, e)
    }
}

fn expr(text: &str) -> Expr<()> {
    let mut r = Reader { toks: lex(text), at: 0 };
    let e = r.expr();
    assert_eq!(r.at, r.toks.len(), "trailing text in `{text}`");
    e
}

fn quoted(s: &str) -> String {
    format!("\"{}\"", s.replace('\\', "\\\\").replace('"', "\\\""))
}

/// `e` as text, with every operand in brackets.
fn show<D>(e: &Expr<D>) -> String {
    let all = |es: &[Expr<D>]| es.iter().map(show).collect::<Vec<_>>().join(", ");
    match e.expr_kind() {
        ExprKind::Lit(Prim::Bool(b)) => b.to_string(),
        ExprKind::Lit(Prim::Long(n)) => n.to_string(),
        ExprKind::Lit(Prim::String(s)) => quoted(s),
        ExprKind::Lit(Prim::EntityUid(u)) => format!("{}::{}", u.ty, quoted(&u.eid)),
        ExprKind::Var(Var::Principal) => "principal".to_string(),
        ExprKind::Var(Var::Action) => "action".to_string(),
        ExprKind::Var(Var::Resource) => "resource".to_string(),
        ExprKind::Var(Var::Context) => "context".to_string(),
        ExprKind::Slot(SlotId::Principal) => "?principal".to_string(),
        ExprKind::Slot(SlotId::Resource) => "?resource".to_string(),
        ExprKind::Unknown(u) => format!("unknown({})", quoted(u)),
        ExprKind::If { test_expr, then_expr, else_expr } => format!(
            "(if {} then {} else {})",
            show(test_expr),
            show(then_expr),
            show(else_expr)
        ),
        ExprKind::And { left, right } => format!("({} && {})", show(left), show(right)),
        ExprKind::Or { left, right } => format!("({} || {})", show(left), show(right)),
        ExprKind::UnaryApp { op: UnaryOp::Not, arg } => format!("!{}", show(arg)),
        ExprKind::UnaryApp { op: UnaryOp::Neg, arg } => format!("-{}", show(arg)),
        ExprKind::UnaryApp { op: UnaryOp::IsEmpty, arg } => format!("{}.isEmpty()", show(arg)),
        ExprKind::BinaryApp { op, arg1, arg2 } => {
            let (a, b) = (show(arg1), show(arg2));
            match op {
                BinaryOp::Eq => format!("({a} == {b})"),
                BinaryOp::Less => format!("({a} < {b})"),
                BinaryOp::LessEq => format!("({a} <= {b})"),
                BinaryOp::Add => format!("({a} + {b})"),
                BinaryOp::Sub => format!("({a} - {b})"),
                BinaryOp::Mul => format!("({a} * {b})"),
                BinaryOp::In => format!("({a} in {b})"),
                BinaryOp::Contains => format!("{a}.contains({b})"),
                BinaryOp::ContainsAll => format!("{a}.containsAll({b})"),
                BinaryOp::ContainsAny => format!("{a}.containsAny({b})"),
                BinaryOp::GetTag => format!("{a}.getTag({b})"),
                BinaryOp::HasTag => format!("{a}.hasTag({b})"),
            }
        }
        ExprKind::ExtensionFunctionApp { fn_name, args } => format!("{fn_name}({})", all(args)),
        ExprKind::GetAttr { expr, attr } => format!("{}.{attr}", show(expr)),
        ExprKind::HasAttr { expr, attr } => format!("({} has {attr})", show(expr)),
        ExprKind::Like { expr, pattern } => {
            let p: String = pattern
                .iter()
                .map(|x| match x {
                    PatternElem::Wildcard => "*".to_string(),
                    PatternElem::Char('*') => "\\*".to_string(),
                    PatternElem::Char(c) => c.to_string(),
                })
                .collect();
            format!("({} like \"{p}\")", show(expr))
        }
        ExprKind::Is { expr, entity_type } => format!("({} is {entity_type})", show(expr)),
        ExprKind::SetLit(es) => format!("[{}]", all(es)),
        ExprKind::Record(fields) => {
            let fs: Vec<String> =
                fields.iter().map(|(k, v)| format!("{k}: {}", show(v))).collect();
            format!("{{{}}}", fs.join(", "))
        }
    }
}


// ---------------------------------------------------------------------------
// The schema and its typechecker

fn boolean() -> Type {
    Type::Bool(BoolType::AnyBool)
}

fn just(b: bool) -> Type {
    Type::Bool(if b { BoolType::True } else { BoolType::False })
}

fn entity(ty: &str) -> Type {
    Type::Entity(Arc::new(vec![ty.to_string()]))
}

fn attr_type(ty: &Type, attr: &str) -> Result<Type, String> {
    let unknown = || Err(format!("no attribute {attr}"));
    match ty {
        Type::Entity(names) => match (names[0].as_str(), attr) {
            ("User", "age") => Ok(Type::Long),
            ("Doc", "public") => Ok(boolean()),
            ("Doc", "owner") => Ok(entity("User")),
            _ => unknown(),
        },
        Type::RecordOf(fields) => match fields.iter().find(|f| f.0 == attr) {
            Some(f) => Ok(f.1.dup()),
            None => unknown(),
        },
        _ => Err("not a record".to_string()),
    }
}

type Typed = Expr<Option<Type>>;

fn need_bool(t: &Typed) -> Result<(), String> {
    match &t.data {
        Some(Type::Bool(_)) => Ok(()),
        other => Err(format!("expected a boolean, got {other:?}")),
    }
}

fn need_long(t: &Typed) -> Result<(), String> {
    match &t.data {
        Some(Type::Long) => Ok(()),
        other => Err(format!("expected a number, got {other:?}")),
    }
}

/// The typed form of `e` in `env`.
fn typecheck(e: &Expr<()>, env: &RequestEnv) -> Result<Typed, String> {
    let go = |x: &Arc<Expr<()>>| typecheck(x, env).map(Arc::new);
    let (kind, ty) = match e.expr_kind() {
        ExprKind::Lit(p) => {
            let ty = match p {
                Prim::Bool(b) => just(*b),
                Prim::Long(_) => Type::Long,
                Prim::String(_) => Type::String,
                Prim::EntityUid(u) => entity(&u.ty),
            };
            (ExprKind::Lit(p.dup()), ty)
        }
        ExprKind::Var(v) => {
            let ty = match v {
                Var::Principal => entity(&env.principal),
                Var::Action => entity("Action"),
                Var::Resource => entity(&env.resource),
                Var::Context => {
                    Type::RecordOf(Arc::new(vec![("admin".to_string(), boolean(), true)]))
                }
            };
            (ExprKind::Var(*v), ty)
        }
        ExprKind::Slot(s) => {
            let ty = match s {
                SlotId::Principal => entity(&env.principal),
                SlotId::Resource => entity(&env.resource),
            };
            (ExprKind::Slot(*s), ty)
        }
        ExprKind::If { test_expr, then_expr, else_expr } => {
            let t = go(test_expr)?;
            need_bool(&t)?;
            match &t.data {
                Some(Type::Bool(BoolType::True)) => return typecheck(then_expr, env),
                Some(Type::Bool(BoolType::False)) => return typecheck(else_expr, env),
                _ => {}
            }
            let (a, b) = (go(then_expr)?, go(else_expr)?);
            let ty = match (&a.data, &b.data) {
                (Some(Type::Bool(_)), Some(Type::Bool(_))) => boolean(),
                (t, _) => t.dup().unwrap(),
            };
            (ExprKind::If { test_expr: t, then_expr: a, else_expr: b }, ty)
        }
        ExprKind::And { left, right } => {
            let l = go(left)?;
            need_bool(&l)?;
            if is_just(&l, false) {
                let right = decided(false);
                let kind = ExprKind::And { left: l, right };
                return Ok(Expr { kind, loc: e.loc, data: Some(just(false)) });
            }
            let r = go(right)?;
            need_bool(&r)?;
            let ty = if is_just(&r, false) || is_just(&l, true) {
                r.data.dup().unwrap()
            } else {
                boolean()
            };
            (ExprKind::And { left: l, right: r }, ty)
        }
        ExprKind::Or { left, right } => {
            let l = go(left)?;
            need_bool(&l)?;
            if is_just(&l, true) {
                let right = decided(true);
                let kind = ExprKind::Or { left: l, right };
                return Ok(Expr { kind, loc: e.loc, data: Some(just(true)) });
            }
            let r = go(right)?;
            need_bool(&r)?;
            let ty = if is_just(&r, true) || is_just(&l, false) {
                r.data.dup().unwrap()
            } else {
                boolean()
            };
            (ExprKind::Or { left: l, right: r }, ty)
        }
        ExprKind::UnaryApp { op, arg } => {
            let x = go(arg)?;
            let ty = match op {
                UnaryOp::Not => {
                    need_bool(&x)?;
                    match &x.data {
                        Some(Type::Bool(BoolType::True)) => just(false),
                        Some(Type::Bool(BoolType::False)) => just(true),
                        _ => boolean(),
                    }
                }
                UnaryOp::Neg => Type::Long,
                UnaryOp::IsEmpty => boolean(),
            };
            (ExprKind::UnaryApp { op: *op, arg: x }, ty)
        }
        ExprKind::BinaryApp { op, arg1, arg2 } => {
            let (x, y) = (go(arg1)?, go(arg2)?);
            let ty = match op {
                BinaryOp::Add | BinaryOp::Sub | BinaryOp::Mul => {
                    need_long(&x)?;
                    need_long(&y)?;
                    Type::Long
                }
                BinaryOp::GetTag => Type::Long,
                BinaryOp::Eq => match (arg1.expr_kind(), arg2.expr_kind()) {
                    (ExprKind::Var(Var::Action), ExprKind::Lit(Prim::EntityUid(u))) => {
                        just(*u == env.action)
                    }
                    _ => match (&x.data, &y.data) {
                        (Some(Type::Entity(a)), Some(Type::Entity(b))) if a[0] != b[0] => {
                            just(false)
                        }
                        _ => boolean(),
                    },
                },
                _ => boolean(),
            };
            (ExprKind::BinaryApp { op: *op, arg1: x, arg2: y }, ty)
        }
        ExprKind::ExtensionFunctionApp { fn_name, args } => {
            let xs = args.iter().map(|a| typecheck(a, env)).collect::<Result<Vec<_>, _>>()?;
            let kind =
                ExprKind::ExtensionFunctionApp { fn_name: fn_name.clone(), args: Arc::new(xs) };
            (kind, boolean())
        }
        ExprKind::GetAttr { expr, attr } => {
            let x = go(expr)?;
            let ty = attr_type(x.data.as_ref().unwrap(), attr)?;
            (ExprKind::GetAttr { expr: x, attr: attr.clone() }, ty)
        }
        ExprKind::HasAttr { expr, attr } => {
            (ExprKind::HasAttr { expr: go(expr)?, attr: attr.clone() }, boolean())
        }
        ExprKind::Like { expr, pattern } => {
            (ExprKind::Like { expr: go(expr)?, pattern: pattern.clone() }, boolean())
        }
        ExprKind::Is { expr, entity_type } => {
            let x = go(expr)?;
            let is = match &x.data {
                Some(Type::Entity(names)) => names[0] == *entity_type,
                _ => return Err("not an entity".to_string()),
            };
            (ExprKind::Is { expr: x, entity_type: entity_type.clone() }, just(is))
        }
        _ => return Err("not supported".to_string()),
    };
    Ok(Expr { kind, loc: e.loc, data: Some(ty) })
}

/// What stands for an operand that never runs.
fn decided(b: bool) -> Arc<Typed> {
    Arc::new(Expr { kind: ExprKind::Lit(Prim::Bool(b)), loc: None, data: Some(just(b)) })
}

fn is_just(t: &Typed, b: bool) -> bool {
    match &t.data {
        Some(Type::Bool(BoolType::True)) => b,
        Some(Type::Bool(BoolType::False)) => !b,
        _ => false,
    }
}

fn check(p: &Policy, env: &RequestEnv) -> Checked {
    let check = match typecheck(&p.condition(), env) {
        Ok(t) => match need_bool(&t) {
            Ok(()) => PolicyCheck::Success(t),
            Err(m) => PolicyCheck::Fail(vec![m]),
        },
        Err(m) => PolicyCheck::Fail(vec![m]),
    };
    Checked { errs: vec![], check }
}

fn uid_of(r: &mut Reader) -> EntityRef {
    match r.primary().expr_kind() {
        ExprKind::Lit(Prim::EntityUid(u)) => EntityRef::Uid(u.dup()),
        ExprKind::Slot(_) => EntityRef::Slot,
        other => panic!("{other:?}"),
    }
}

fn scope(r: &mut Reader, var: &str) -> ScopeConstraint {
    r.need(var);
    if r.eat("is") {
        ScopeConstraint::Is(r.word())
    } else if r.eat("==") {
        ScopeConstraint::Eq(uid_of(r))
    } else {
        ScopeConstraint::Any
    }
}

/// The policies of a document.
fn policies(text: &str) -> PolicySet {
    let mut set = PolicySet::new();
    let mut r = Reader { toks: lex(text), at: 0 };
    let mut n: usize = 0;
    while r.at < r.toks.len() {
        let from = r.at;
        let effect = if r.word() == "permit" { Effect::Permit } else { Effect::Forbid };
        r.need("(");
        let principal = scope(&mut r, "principal");
        r.need(",");
        r.need("action");
        let action = if r.eat("==") {
            match uid_of(&mut r) {
                EntityRef::Uid(u) => ActionConstraint::Eq(u),
                EntityRef::Slot => panic!("an action is no slot"),
            }
        } else {
            ActionConstraint::Any
        };
        r.need(",");
        let resource = scope(&mut r, "resource");
        r.need(")");
        let mut clauses = Vec::new();
        while r.eat("when") {
            r.need("{");
            clauses.push(r.expr());
            r.need("}");
        }
        r.need(";");
        let loc = Some(Loc { start: r.toks[from].1, end: r.toks[r.at - 1].2 });
        let when = clauses.into_iter().reduce(|a, b| Expr {
            kind: ExprKind::And { left: Arc::new(a), right: Arc::new(b) },
            loc,
            data: (),
        });
        let linked = matches!(principal, ScopeConstraint::Eq(EntityRef::Slot));
        set.add(Policy {
            id: format!("policy{n}"),
            effect,
            annotations: Arc::new(vec![]),
            loc,
            principal,
            action,
            resource,
            when: when.map(Arc::new),
            principal_slot: if linked { Some(EntityUid::new("User", "alice")) } else { None },
            resource_slot: None,
        })
        .unwrap();
        n += 1;
    }
    set
}

// ---------------------------------------------------------------------------
// Environments

fn env(principal: &str, action: &str) -> RequestEnv {
    RequestEnv {
        principal: principal.to_string(),
        action: EntityUid::new("Action", action),
        resource: "Doc".to_string(),
    }
}

fn envs() -> Vec<RequestEnv> {
    vec![env("User", "view"), env("Group", "view"), env("User", "edit")]
}

fn schema_named(text: &str) -> Arc<Schema> {
    let actions = vec![EntityUid::new("Action", "view"), EntityUid::new("Action", "edit")];
    Arc::new(Schema::new(text.to_string(), envs(), actions))
}

fn schema() -> Arc<Schema> {
    schema_named("schema")
}

/// The errors of a policy set, as the validator finds them.
fn errors(set: &PolicySet) -> Vec<String> {
    let mut errs = Vec::new();
    for p in set.policies() {
        for e in envs() {
            if let PolicyCheck::Fail(more) = check(p, &e).check {
                errs.extend(more);
            }
        }
    }
    errs
}

fn typechecked(text: &str) -> TypecheckedPolicySet {
    let set = policies(text);
    let errs = errors(&set);
    TypecheckedPolicySet::new(set, schema(), errs, &check).unwrap()
}

fn outcomes(set: &[EvaluationOutcome]) -> Outcomes {
    let has = |o: EvaluationOutcome| set.contains(&o);
    Outcomes::from_flags(has(Tr), has(Fa), has(Er)).unwrap()
}

fn has_slot(e: &Expr<()>) -> bool {
    matches!(e.expr_kind(), ExprKind::Slot(_)) || (0..e.kid_count()).any(|i| has_slot(e.kid(i)))
}

fn erased(e: &Expr<Option<Type>>) -> Expr<()> {
    cedar_analysis::expr_util::erase(e)
}

// ---------------------------------------------------------------------------
// A partial evaluator for residuals over unknown entities

fn copy(r: &Residual) -> Residual {
    let (kind, ty) = match r {
        Residual::Error(ty) => return Residual::Error(ty.dup()),
        Residual::Concrete { value: Val::Lit(p), ty } => {
            return Residual::Concrete { value: Val::Lit(p.dup()), ty: ty.dup() }
        }
        Residual::Concrete { .. } => panic!("{r:?}"),
        Residual::Partial { kind, ty } => (kind, ty),
    };
    let kind = match kind {
        ResidualKind::Var(v) => ResidualKind::Var(*v),
        ResidualKind::And { left, right } => {
            ResidualKind::And { left: left.clone(), right: right.clone() }
        }
        ResidualKind::Or { left, right } => {
            ResidualKind::Or { left: left.clone(), right: right.clone() }
        }
        ResidualKind::BinaryApp { op, arg1, arg2 } => {
            ResidualKind::BinaryApp { op: *op, arg1: arg1.clone(), arg2: arg2.clone() }
        }
        ResidualKind::GetAttr { expr, attr } => {
            ResidualKind::GetAttr { expr: expr.clone(), attr: attr.clone() }
        }
        other => panic!("{other:?}"),
    };
    Residual::Partial { kind, ty: ty.dup() }
}

fn truth(b: bool) -> Residual {
    Residual::Concrete { value: Val::Lit(Prim::Bool(b)), ty: boolean() }
}

fn interpret(r: &Residual, env: &RequestEnv) -> Residual {
    let Residual::Partial { kind, ty } = r else { return copy(r) };
    match kind {
        ResidualKind::And { left, right } => {
            let l = interpret(left, env);
            if l.is_true() {
                return interpret(right, env);
            }
            if l.is_false() || l.is_error() {
                return l;
            }
            let right = Arc::new(interpret(right, env));
            let kind = ResidualKind::And { left: Arc::new(l), right };
            Residual::Partial { kind, ty: ty.dup() }
        }
        ResidualKind::Or { left, right } => {
            let l = interpret(left, env);
            if l.is_false() {
                return interpret(right, env);
            }
            if l.is_true() || l.is_error() {
                return l;
            }
            let right = Arc::new(interpret(right, env));
            let kind = ResidualKind::Or { left: Arc::new(l), right };
            Residual::Partial { kind, ty: ty.dup() }
        }
        ResidualKind::BinaryApp { op, arg1, arg2 } => {
            let (a, b) = (interpret(arg1, env), interpret(arg2, env));
            match (op, &a, &b) {
                (_, Residual::Error(_), _) | (_, _, Residual::Error(_)) => {
                    Residual::Error(ty.dup())
                }
                (
                    BinaryOp::Add,
                    Residual::Concrete { value: Val::Lit(Prim::Long(x)), .. },
                    Residual::Concrete { value: Val::Lit(Prim::Long(y)), .. },
                ) => match x.checked_add(*y) {
                    Some(n) => {
                        Residual::Concrete { value: Val::Lit(Prim::Long(n)), ty: Type::Long }
                    }
                    None => Residual::Error(Type::Long),
                },
                (
                    BinaryOp::Eq,
                    Residual::Partial { kind: ResidualKind::Var(Var::Action), .. },
                    Residual::Concrete { value: Val::Lit(Prim::EntityUid(u)), .. },
                ) => truth(*u == env.action),
                _ => Residual::Partial {
                    kind: ResidualKind::BinaryApp { op: *op, arg1: Arc::new(a), arg2: Arc::new(b) },
                    ty: ty.dup(),
                },
            }
        }
        _ => copy(r),
    }
}

fn has_error(r: &Residual) -> bool {
    match r {
        Residual::Error(_) => true,
        Residual::Concrete { .. } => false,
        Residual::Partial { kind, .. } => match kind {
            ResidualKind::And { left, right } | ResidualKind::Or { left, right } => {
                has_error(left) || has_error(right)
            }
            ResidualKind::BinaryApp { arg1, arg2, .. } => has_error(arg1) || has_error(arg2),
            _ => false,
        },
    }
}

type Interpreted = (Residual, Result<Option<Expr<Option<Type>>>, StaticError>);

fn folder(r: &Residual, env: &RequestEnv) -> Option<Interpreted> {
    let new = interpret(r, env);
    let typed = match &new {
        Residual::Error(ty) => Err(StaticError { ty: ty.dup() }),
        r if has_error(r) => Ok(None),
        r => Ok(Some(typecheck(&r.to_expr(), env).unwrap())),
    };
    Some((new, typed))
}

// ---------------------------------------------------------------------------

#[test]
fn every_policy_in_every_env() {
    let tps = typechecked(
        r#"
        permit(principal, action, resource) when { resource.public };
        forbid(principal is User, action == Action::"edit", resource) when { principal.age < 18 };
        "#,
    );
    assert_eq!(tps.policies().len(), 2);
    for policy in tps.policies() {
        let mut rts: Vec<String> =
            policy.request_types().iter().map(|e| format!("{e:?}")).collect();
        let mut expected: Vec<String> = envs().iter().map(|e| format!("{e:?}")).collect();
        rts.sort();
        expected.sort();
        assert_eq!(rts, expected);
        for e in envs() {
            let typed = policy.typed_condition(&e).unwrap().as_ref().unwrap();
            assert!(typed.data.is_some(), "root typed");
            assert!(!has_slot(&erased(typed)));
            let found = policy.outcomes(&e).unwrap();
            assert!(found.contains(Fa));
            if policy.policy().effect == Effect::Permit {
                assert!(found.contains(Tr));
            }
        }
    }
    assert!(all_outcomes().same(&outcomes(&[Tr, Fa, Er])));
}

#[test]
fn ill_typed_policy_is_rejected() {
    let set = policies("permit(principal, action, resource) when { resource.nope };");
    let errs = errors(&set);
    match TypecheckedPolicySet::new(set, schema(), errs, &check) {
        Err(TypecheckError::NotWellTyped { errs }) => assert!(!errs.is_empty()),
        _ => panic!("expected an error"),
    }
    // also where only the typechecker finds it
    let set = policies("permit(principal, action, resource) when { resource.nope };");
    match TypecheckedPolicySet::new(set, schema(), vec![], &check) {
        Err(TypecheckError::NotWellTyped { errs }) => assert_eq!(errs, ["no attribute nope"]),
        _ => panic!("expected an error"),
    }
}

#[test]
fn linked_policy_has_its_slots_substituted() {
    let tps = typechecked("permit(principal == ?principal, action, resource);");
    let linked = tps.get(&"policy0".to_string()).unwrap();
    assert!(tps.get(&"t".to_string()).is_none(), "templates carry no condition");
    assert!(!has_slot(linked.condition()));
    assert!(show(linked.condition()).contains(r#"User::"alice""#));
    for e in envs() {
        let typed = linked.typed_condition(&e).unwrap().as_ref().unwrap();
        assert!(!has_slot(&erased(typed)));
    }
}

#[test]
fn trait_answers_from_the_cache_and_falls_back() {
    let tps = typechecked("permit(principal, action, resource) when { resource.public };");
    let policy = tps.policies()[0];
    let view = env("User", "view");
    let cached = policy.typed_condition(&view).unwrap().as_ref().unwrap();
    let answer = policy.typechecked(&view, &schema(), &check).unwrap();
    assert!(Arc::ptr_eq(cached, &answer), "what was known is returned as it is");
    // a structurally equal schema is the same schema
    let answer = policy.typechecked(&view, &schema_named("schema"), &check).unwrap();
    assert!(Arc::ptr_eq(cached, &answer));
    // a different schema takes the default path: a fresh, equivalent typing
    let bigger = schema_named("bigger");
    let answer = policy.typechecked(&view, &bigger, &check).unwrap();
    assert!(!Arc::ptr_eq(cached, &answer));
    assert!(answer.data.is_some());
    // the plain expression path is the default
    let plain = policy.condition().typechecked(&view, &schema(), &check).unwrap();
    assert!(plain.data.is_some());
}

#[test]
fn construction_converts_without_interpreting() {
    let tps = typechecked(r#"permit(principal, action == Action::"edit", resource);"#);
    let policy = tps.policies()[0];
    // the action constraint is still a comparison
    assert!(policy.residual(&env("User", "view")).unwrap().is_partial());
}

#[test]
fn constant_fold_decides_scope_per_env_and_narrows_outcomes() {
    let tps = typechecked(
        r#"permit(principal, action == Action::"edit", resource) when { resource.public };"#,
    )
    .constant_fold(&folder);
    let policy = tps.policies()[0];
    let (view, edit) = (env("User", "view"), env("User", "edit"));
    // in a `view` environment the policy is `false`
    assert!(policy.residual(&view).unwrap().is_false());
    assert!(policy.outcomes(&view).unwrap().same(&outcomes(&[Fa])));
    let typed = policy.typed_condition(&view).unwrap().as_ref().unwrap();
    assert!(matches!(typed.expr_kind(), ExprKind::Lit(Prim::Bool(false))));
    // in an `edit` environment only the `when` clause is left, with its type
    let typed = policy.typed_condition(&edit).unwrap().as_ref().unwrap();
    assert!(matches!(typed.expr_kind(), ExprKind::GetAttr { .. }));
    assert!(matches!(typed.data, Some(Type::Bool(BoolType::AnyBool))));
    let found = policy.outcomes(&edit).unwrap();
    assert!(found.contains(Tr));
    assert!(found.contains(Fa));
}

#[test]
fn constant_fold_static_error() {
    let tps = typechecked(
        "permit(principal, action, resource) when { 9223372036854775807 + 1 == 1 };",
    )
    .constant_fold(&folder);
    let policy = tps.policies()[0];
    let view = env("User", "view");
    match policy.typed_condition(&view).unwrap() {
        Err(StaticError { ty }) => assert!(matches!(ty, Type::Bool(BoolType::AnyBool))),
        other => panic!("{other:?}"),
    }
    assert!(policy.outcomes(&view).unwrap().same(&outcomes(&[Er])));
    // the condition of such an environment can still be had, not for free
    assert!(policy.typechecked(&view, &schema(), &check).is_ok());
    assert!(policy.request_envs().len() == 3);
}

#[test]
fn constant_fold_nested_error_keeps_the_condition() {
    let tps = typechecked(
        "permit(principal, action, resource) when { resource.public || 9223372036854775807 + 1 == 1 };",
    )
    .constant_fold(&folder);
    let policy = tps.policies()[0];
    let view = env("User", "view");
    assert!(policy.residual(&view).unwrap().is_partial());
    // the typed condition is the unfolded one
    let typed = policy.typed_condition(&view).unwrap().as_ref().unwrap();
    assert!(matches!(typed.expr_kind(), ExprKind::And { .. }));
    assert!(policy.outcomes(&view).unwrap().same(&outcomes(&[Tr, Er])));
}

#[test]
fn typecheck_and_query() {
    let set = policies(
        r#"permit(principal, action == Action::"view", resource) when { resource.public };"#,
    );
    let schema = schema();
    let tps = set.typecheck(&schema, vec![], &check).unwrap();
    assert_eq!(tps.policies().len(), 1);
    let id = "policy0".to_string();
    let policy = tps.get(&id).unwrap();
    assert_eq!(*policy.id(), id);
    assert!(tps.policy(&id).is_some());
    let found = policy.request_envs();
    assert_eq!(found.len(), 3);
    for e in envs() {
        assert!(found.iter().any(|f| *f == e));
        assert!(policy.typed_condition(&e).unwrap().is_ok());
        assert!(policy.outcomes(&e).unwrap().contains(Fa));
    }
    assert!(policy.same_schema(&schema));
    assert!(policy.typed_condition(&env("Doc", "view")).is_none());
}

#[test]
fn invalid_policies_are_rejected() {
    let set = policies("permit(principal, action, resource) when { resource.nope };");
    let errs = errors(&set);
    assert!(matches!(
        set.typecheck(&schema(), errs, &check),
        Err(TypecheckError::NotWellTyped { .. })
    ));
}

#[test]
fn constant_fold_narrows() {
    let tps = policies(
        r#"permit(principal, action == Action::"view", resource) when { resource.public };"#,
    )
    .typecheck(&schema(), vec![], &check)
    .unwrap()
    .constant_fold(&folder);
    let policy = tps.get(&"policy0".to_string()).unwrap();
    let edit = env("User", "edit");
    assert!(policy.residual(&edit).unwrap().is_false());
    assert!(policy.outcomes(&edit).unwrap().same(&outcomes(&[Fa])));
}

#[test]
fn folding_one_environment_leaves_the_others() {
    let mut tps = typechecked("permit(principal, action, resource) when { resource.public };");
    let id = "policy0".to_string();
    let (view, edit) = (env("User", "view"), env("User", "edit"));
    let typed = Arc::new(typecheck(&expr("true"), &view).unwrap());
    let policy = tps.get_mut(&id).unwrap();
    policy.fold_env(&view, typed.clone(), outcomes(&[Tr])).unwrap();
    assert!(policy.outcomes(&view).unwrap().same(&outcomes(&[Tr])));
    assert!(policy.residual(&view).unwrap().is_true());
    assert!(policy.residual(&edit).unwrap().is_partial());
    // an environment not of the schema, and an expression without types
    assert!(matches!(
        policy.fold_env(&env("Doc", "view"), typed, outcomes(&[Tr])),
        Err(TypecheckError::MissingType)
    ));
    let untyped = Expr { kind: ExprKind::Lit(Prim::Bool(false)), loc: None, data: None };
    assert!(matches!(
        policy.fold_env(&edit, Arc::new(untyped), outcomes(&[Fa])),
        Err(TypecheckError::MissingType)
    ));
    assert!(policy.residual(&edit).unwrap().is_partial());
}

#[test]
fn policies_keep_their_order() {
    let mut text = String::new();
    for _ in 0..9 {
        text.push_str("permit(principal, action, resource);\n");
    }
    let tps = typechecked(&text);
    let ids: Vec<&String> = tps.policies().into_iter().map(|p| p.id()).collect();
    let expected: Vec<String> = (0..9).map(|i: usize| format!("policy{i}")).collect();
    assert_eq!(ids, expected.iter().collect::<Vec<_>>());
    assert_eq!(tps.len(), 9);
    assert!(tps.get(&"policy9".to_string()).is_none());
    assert_eq!(tps.into_policy_set().policies().len(), 9);
}

#[test]
fn an_irrelevant_policy_is_typed_too() {
    let typed = typecheck(&expr("false"), &env("User", "view")).unwrap();
    let c = Checked { errs: vec![], check: PolicyCheck::Irrelevant(vec![], typed) };
    assert!(c.into_result().is_ok());
    let typed = typecheck(&expr("false"), &env("User", "view")).unwrap();
    let c = Checked {
        errs: vec!["unknown type".to_string()],
        check: PolicyCheck::Success(typed),
    };
    assert!(matches!(c.into_result(), Err(TypecheckError::NotWellTyped { .. })));
    assert!(matches!(
        typecheck_expr(&expr("resource.nope"), &env("User", "view"), &check),
        Err(TypecheckError::NotWellTyped { .. })
    ));
}

#[test]
fn slots_are_substituted() {
    let bound = SlotEnv { principal: Some(EntityUid::new("User", "alice")), resource: None };
    let e = expr("principal == ?principal && [?principal].contains(principal)");
    let r = substitute_slots(&e, &bound).unwrap();
    assert!(r == expr(r#"principal == User::"alice" && [User::"alice"].contains(principal)"#));
    match substitute_slots(&expr("resource == ?resource"), &bound) {
        Err(TypecheckError::UnboundSlot(s)) => assert_eq!(s, SlotId::Resource),
        other => panic!("{other:?}"),
    }
    let plain = expr("resource.public");
    assert!(substitute_slots(&plain, &SlotEnv::new()).unwrap() == plain);
}
