//! The `iferror` extension: `iferror(e, d)` coalesces an evaluation error
//! into a boolean.
//!
//! Semantics (both arguments and the result are `Bool`):
//!
//! | `e`                    | result                                            |
//! | ---------------------- | ------------------------------------------------- |
//! | `true` / `false`       | that value; `d` is **not** evaluated              |
//! | a non-boolean value    | a type error (`iferror` is a *boolean* coalescer) |
//! | an error               | `d`'s boolean value, or `d`'s own error           |
//!
//! So `iferror(e, false)` is exactly "`e` evaluates to `true`" as a boolean,
//! and it never errors when `e` is boolean-or-error (everything that
//! validates). `d` is evaluated only when `e` errors, `if`-style.
//!
//! An ordinary extension function receives its arguments already evaluated,
//! so it cannot see an argument's error: `iferror` is registered for parsing,
//! validation and the strict path, and every evaluator special-cases it
//! before evaluating the arguments. The strict body is reached only when both
//! arguments evaluated without error, where returning the first is the right
//! answer.
//!
//! Typing is strict, like that of every other function: `iferror : (Bool,
//! Bool) -> Bool` coalesces evaluation errors, not validation errors.

use vstd::prelude::*;

use crate::ast::{Expr, ExprKind, Prim};
use crate::model::{Value, World};
use crate::outcome::EvaluationOutcome;
use crate::residual::Val;
use crate::tree::{Op, Tree};
use crate::types::{BoolType, Type};

verus! {

/// The name of the extension and of its one function.
pub const EXTENSION_NAME: &'static str = "iferror";

impl Tree {
    /// The root is a call of `iferror`, with any number of arguments.
    pub open spec fn is_iferror(self) -> bool {
        self.op == Op::Call("iferror"@)
    }
}

/// Whether `fn_name` is `iferror`.
pub fn is_iferror(fn_name: &String) -> (r: bool)
    ensures
        r == (fn_name@ == "iferror"@),
{
    *fn_name == "iferror".to_owned()
}

/// Whether `e` is an `iferror(…)` call.
pub fn is_iferror_call<T>(e: &Expr<T>) -> (r: bool)
    ensures
        r == e.tree().is_iferror(),
{
    match &e.kind {
        ExprKind::ExtensionFunctionApp { fn_name, .. } => is_iferror(fn_name),
        _ => false,
    }
}

/// How an extension function is called.
#[derive(Clone, Copy, Debug, PartialEq, Eq, Structural)]
pub enum CallStyle {
    /// `f(a, b)`
    FunctionStyle,
    /// `a.f(b)`
    MethodStyle,
}

/// An extension function, as it is registered.
#[derive(Debug)]
pub struct ExtensionFunction {
    pub name: String,
    pub style: CallStyle,
    pub params: Vec<Type>,
    pub ret: Type,
    pub variadic: bool,
}

/// An extension: its name and its functions.
#[derive(Debug)]
pub struct Extension {
    pub name: String,
    pub funcs: Vec<ExtensionFunction>,
}

/// The type of an extension function, as the validator knows it.
#[derive(Debug)]
pub struct ExtensionFunctionType {
    pub name: String,
    pub params: Vec<Type>,
    pub ret: Type,
    pub variadic: bool,
}

/// The types of the functions of an extension.
#[derive(Debug)]
pub struct ExtensionSchema {
    pub name: String,
    pub funcs: Vec<ExtensionFunctionType>,
}

/// Why a call of an extension function failed.
#[derive(Clone, Copy, Debug, PartialEq, Eq, Structural)]
pub enum CallError {
    /// The function takes another number of arguments.
    WrongNumArguments { expected: usize, actual: usize },
    /// An argument is not of the type the function takes.
    TypeError,
}

/// Two booleans.
pub open spec fn two_booleans(params: Seq<Type>) -> bool {
    params == seq![Type::Bool(BoolType::AnyBool), Type::Bool(BoolType::AnyBool)]
}

fn booleans() -> (r: Vec<Type>)
    ensures
        two_booleans(r@),
{
    let mut params: Vec<Type> = Vec::new();
    params.push(Type::Bool(BoolType::AnyBool));
    params.push(Type::Bool(BoolType::AnyBool));
    assert(params@ =~= seq![Type::Bool(BoolType::AnyBool), Type::Bool(BoolType::AnyBool)]);
    params
}

/// Construct the extension: one function `iferror : (Bool, Bool) -> Bool`.
pub fn extension() -> (r: Extension)
    ensures
        r.name@ == EXTENSION_NAME@,
        r.funcs@.len() == 1,
        r.funcs@[0].name@ == EXTENSION_NAME@,
        r.funcs@[0].style == CallStyle::FunctionStyle,
        two_booleans(r.funcs@[0].params@),
        r.funcs@[0].ret == Type::Bool(BoolType::AnyBool),
        !r.funcs@[0].variadic,
{
    let mut funcs: Vec<ExtensionFunction> = Vec::new();
    funcs.push(
        ExtensionFunction {
            name: EXTENSION_NAME.to_owned(),
            style: CallStyle::FunctionStyle,
            params: booleans(),
            ret: Type::Bool(BoolType::AnyBool),
            variadic: false,
        },
    );
    Extension { name: EXTENSION_NAME.to_owned(), funcs }
}

/// Construct the extension schema: the functions of the extension, each with
/// type `(Bool, Bool) -> Bool`.
pub fn extension_schema() -> (r: ExtensionSchema)
    ensures
        r.name@ == EXTENSION_NAME@,
        r.funcs@.len() == 1,
        r.funcs@[0].name@ == EXTENSION_NAME@,
        two_booleans(r.funcs@[0].params@),
        r.funcs@[0].ret == Type::Bool(BoolType::AnyBool),
        !r.funcs@[0].variadic,
{
    let ext = extension();
    let mut funcs: Vec<ExtensionFunctionType> = Vec::new();
    let mut i: usize = 0;
    while i < ext.funcs.len()
        invariant
            i <= ext.funcs@.len(),
            funcs@.len() == i,
            forall|k: int|
                0 <= k < i ==> (#[trigger] funcs@[k]).name@ == ext.funcs@[k].name@
                    && two_booleans(funcs@[k].params@) && funcs@[k].ret == Type::Bool(
                    BoolType::AnyBool,
                ) && funcs@[k].variadic == ext.funcs@[k].variadic,
        decreases ext.funcs@.len() - i,
    {
        funcs.push(
            ExtensionFunctionType {
                name: ext.funcs[i].name.clone(),
                params: booleans(),
                ret: Type::Bool(BoolType::AnyBool),
                variadic: ext.funcs[i].variadic,
            },
        );
        i += 1;
    }
    ExtensionSchema { name: ext.name, funcs }
}

impl Val {
    /// The boolean that the value is, if it is one.
    pub open spec fn boolean(&self) -> Option<bool> {
        match self {
            Val::Lit(Prim::Bool(b)) => Some(*b),
            _ => None,
        }
    }

    /// The boolean that the value is; a type error if it is none.
    pub fn get_as_bool(&self) -> (r: Result<bool, CallError>)
        ensures
            r == match self.boolean() {
                Some(b) => Ok(b),
                None => Err(CallError::TypeError),
            },
    {
        match self {
            Val::Lit(Prim::Bool(b)) => Ok(*b),
            _ => Err(CallError::TypeError),
        }
    }
}

/// The strict body: both arguments evaluated without error, so the first
/// argument is the result (which must be a boolean, like the fallback).
pub fn iferror_strict(first: &Val, second: &Val) -> (r: Result<Val, CallError>)
    ensures
        r == match (first.boolean(), second.boolean()) {
            (Some(b), Some(_)) => Ok(Val::Lit(Prim::Bool(b))),
            _ => Err(CallError::TypeError),
        },
{
    match first.get_as_bool() {
        Ok(b) => match second.get_as_bool() {
            Ok(_) => Ok(Val::Lit(Prim::Bool(b))),
            Err(e) => Err(e),
        },
        Err(e) => Err(e),
    }
}

/// Calls `iferror` on evaluated arguments.
pub fn call(args: &Vec<Val>) -> (r: Result<Val, CallError>)
    ensures
        args@.len() != 2 ==> r == Err::<Val, CallError>(
            CallError::WrongNumArguments { expected: 2, actual: args@.len() as usize },
        ),
        args@.len() == 2 ==> r == match (args@[0].boolean(), args@[1].boolean()) {
            (Some(b), Some(_)) => Ok(Val::Lit(Prim::Bool(b))),
            _ => Err(CallError::TypeError),
        },
{
    if args.len() != 2 {
        return Err(CallError::WrongNumArguments { expected: 2, actual: args.len() });
    }
    iferror_strict(&args[0], &args[1])
}

/// `iferror(e, d)` is `e` wherever `e` evaluates to a boolean, whatever `d`
/// does; where `e` errs it is `d`, as a boolean or an error; and where `e` is
/// another value it errs.
pub proof fn law_iferror(t: Tree, w: World)
    requires
        t.is_iferror(),
        t.kids.len() == 2,
    ensures
        t.kids[0].eval(w) matches Ok(Value::Bool(b)) ==> t.eval(w) == Ok::<Value, int>(
            Value::Bool(b),
        ),
        t.kids[0].eval(w) is Err ==> t.outcome(w) == t.kids[1].outcome(w),
        t.kids[0].eval(w) matches Ok(v) && !(v is Bool) ==> t.eval(w) is Err,
{
}

/// `iferror(e, false)` is true exactly where `e` is, and does not err where
/// `e` is a boolean or errs.
pub proof fn law_iferror_false(t: Tree, w: World)
    requires
        t.is_iferror(),
        t.kids.len() == 2,
        t.kids[1] == Tree::leaf(Op::Lit(crate::tree::Atomic::Bool(false))),
    ensures
        t.outcome(w) == EvaluationOutcome::True <==> t.kids[0].outcome(w)
            == EvaluationOutcome::True,
        t.kids[0].eval(w) is Err || t.kids[0].eval(w)->Ok_0 is Bool ==> t.eval(w) is Ok,
{
    assert(t.kids[1].kids =~= seq![]);
    reveal_with_fuel(Tree::eval, 2);
    reveal_with_fuel(Tree::eval_all, 2);
}

} // verus!
