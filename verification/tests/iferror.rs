//! The `iferror` extension and what the validator knows of it.

use std::sync::Arc;

use cedar_analysis::ast::Prim;
use cedar_analysis::iferror::{
    call, extension, extension_schema, is_iferror, iferror_strict, CallError, CallStyle,
    EXTENSION_NAME,
};
use cedar_analysis::residual::Val;
use cedar_analysis::types::{BoolType, Type};

fn boolean(b: bool) -> Val {
    Val::Lit(Prim::Bool(b))
}

fn long(n: i64) -> Val {
    Val::Lit(Prim::Long(n))
}

#[test]
fn strict_body_returns_the_first_argument() {
    let f = |a: bool, b: bool| call(&vec![boolean(a), boolean(b)]).unwrap().get_as_bool();
    assert_eq!(f(true, false), Ok(true));
    assert_eq!(f(false, true), Ok(false));
    assert!(call(&vec![long(1), boolean(true)]).is_err());
    assert!(call(&vec![boolean(true)]).is_err());
}

#[test]
fn strict_body_wants_booleans() {
    let strict = |a: &Val, b: &Val| iferror_strict(a, b).unwrap_err();
    assert_eq!(strict(&long(1), &boolean(true)), CallError::TypeError);
    assert_eq!(strict(&boolean(true), &long(1)), CallError::TypeError);
    assert_eq!(
        strict(&boolean(true), &Val::SetOf(Arc::new(vec![]))),
        CallError::TypeError
    );
    for n in [0, 1, 3] {
        let args: Vec<Val> = (0..n).map(|_| boolean(true)).collect();
        assert_eq!(
            call(&args).unwrap_err(),
            CallError::WrongNumArguments { expected: 2, actual: n }
        );
    }
}

#[test]
fn extension_schema_correctness() {
    let schema = extension_schema();
    assert_eq!(schema.name, "iferror");
    assert_eq!(schema.funcs.len(), 1);
    let f = &schema.funcs[0];
    assert_eq!(f.name, "iferror");
    assert_eq!(f.params.len(), 2);
    for t in &f.params {
        assert!(matches!(t, Type::Bool(BoolType::AnyBool)));
    }
    assert!(matches!(f.ret, Type::Bool(BoolType::AnyBool)));
    assert!(!f.variadic);
}

#[test]
fn the_extension_is_one_function() {
    let ext = extension();
    assert_eq!(ext.name, EXTENSION_NAME);
    assert_eq!(ext.funcs.len(), 1);
    assert_eq!(ext.funcs[0].style, CallStyle::FunctionStyle);
    assert!(is_iferror(&ext.funcs[0].name));
    assert!(!is_iferror(&"ip".to_string()));
}
