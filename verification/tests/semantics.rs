//! The assumptions that the declarations of a schema state.

use cedar_analysis::ast::{EntityUid, Expr, ExprKind, Prim};
use cedar_analysis::semantics::{
    collect_semantics, ActionName, Assumption, NamespaceDeclaration, SemanticsError, TypeName,
};

fn ty(namespace: &str, basename: &str) -> TypeName {
    TypeName { namespace: namespace.to_string(), basename: basename.to_string() }
}

fn action(namespace: &str, id: &str) -> ActionName {
    ActionName { ty: ty(namespace, "Action"), id: id.to_string() }
}

fn semantics(value: &str) -> Vec<(String, String)> {
    vec![("semantics".to_string(), value.to_string())]
}

fn declared(name: &str, value: &str) -> (String, Vec<(String, String)>) {
    (name.to_string(), semantics(value))
}

fn plain(name: &str) -> (String, Vec<(String, String)>) {
    (name.to_string(), vec![("doc".to_string(), "of no concern".to_string())])
}

/// A parser that knows one mistake.
fn parse(text: &String) -> Result<Expr<()>, String> {
    if text.contains("is then") {
        Err("unexpected token `then`".to_string())
    } else {
        Ok(Expr { kind: ExprKind::Lit(Prim::String(text.clone())), loc: None, data: () })
    }
}

fn valid(namespace: &String) -> bool {
    namespace.split("::").all(|p| !p.is_empty() && p.chars().all(char::is_alphanumeric))
}

fn k8s() -> Vec<NamespaceDeclaration> {
    vec![NamespaceDeclaration {
        name: Some("k8s".to_string()),
        annotations: semantics("the namespace's"),
        entity_types: vec![declared("User", "true"), plain("Secret")],
        actions: vec![declared("get", "the action's"), plain("create")],
    }]
}

fn k8s_types() -> Vec<TypeName> {
    vec![ty("k8s", "User"), ty("k8s", "Secret")]
}

fn k8s_actions() -> Vec<ActionName> {
    vec![action("k8s", "get"), action("k8s", "create")]
}

fn collect(fragment: Vec<NamespaceDeclaration>) -> Result<Vec<Assumption>, SemanticsError> {
    collect_semantics(Ok(fragment), &k8s_types(), &k8s_actions(), &parse, &valid)
}

#[test]
fn collects_every_placement() {
    let found = collect(k8s()).unwrap();
    let mut origins: Vec<String> = found.iter().map(|a| a.origin.clone()).collect();
    origins.sort();
    assert_eq!(
        origins,
        vec![
            r#"action k8s::Action::"get""#.to_string(),
            "entity type k8s::User".to_string(),
            "namespace k8s".to_string(),
        ]
    );
    assert!(found.iter().all(|a| !a.source.is_empty()));
    // the expression is the one that was written there
    for a in &found {
        match &a.expression.kind {
            ExprKind::Lit(Prim::String(s)) => assert_eq!(*s, a.source),
            other => panic!("{other:?}"),
        }
    }
}

#[test]
fn reports_a_bad_expression() {
    let mut fragment = k8s();
    fragment[0].entity_types[0] = declared("User", "if principal is then");
    let err = collect(fragment).unwrap_err();
    assert!(
        matches!(&err, SemanticsError::Parse { origin, .. } if origin == "entity type k8s::User"),
        "{err:?}"
    );
    assert!(err.describe().contains("@semantics annotation on entity type k8s::User"));
    assert_eq!(
        err.describe(),
        "the @semantics annotation on entity type k8s::User does not parse: unexpected token \
         `then`"
    );
}

#[test]
fn none_is_fine() {
    let fragment = vec![NamespaceDeclaration {
        name: None,
        annotations: vec![],
        entity_types: vec![plain("User")],
        actions: vec![plain("get")],
    }];
    let found =
        collect_semantics(Ok(fragment), &vec![ty("", "User")], &vec![action("", "get")], &parse, &valid);
    assert!(found.unwrap().is_empty());
}

#[test]
fn the_empty_namespace_has_declarations_too() {
    let fragment = vec![NamespaceDeclaration {
        name: None,
        annotations: vec![],
        entity_types: vec![declared("User", "a")],
        actions: vec![declared("get \"it\"", "b")],
    }];
    let found = collect_semantics(
        Ok(fragment),
        &vec![ty("", "User")],
        &vec![action("", "get \"it\"")],
        &parse,
        &valid,
    )
    .unwrap();
    let origins: Vec<String> = found.iter().map(|a| a.origin.clone()).collect();
    assert_eq!(origins, vec!["entity type User", r#"action Action::"get \"it\"""#]);
}

#[test]
fn a_schema_that_is_no_fragment_is_an_error() {
    let err = collect_semantics(Err("bad text".to_string()), &vec![], &vec![], &parse, &valid)
        .unwrap_err();
    assert!(matches!(&err, SemanticsError::Fragment(m) if m == "bad text"), "{err:?}");
    assert_eq!(
        err.describe(),
        "the @semantics annotations cannot be read, the schema does not parse as a fragment: bad \
         text"
    );
}

#[test]
fn a_namespace_that_is_none_is_an_error() {
    let types = vec![ty("not a namespace", "User")];
    let err = collect_semantics(Ok(vec![]), &types, &vec![], &parse, &valid).unwrap_err();
    assert!(matches!(err, SemanticsError::Namespace(_)), "{err:?}");
    assert!(err.describe().starts_with("the @semantics annotations cannot be read"));
    assert!(err.describe().contains("entity type not a namespace::User"), "{}", err.describe());
}

#[test]
fn entities_are_written_with_their_ids_escaped() {
    assert_eq!(EntityUid::new("User", "al").describe(), "User::\"al\"");
    assert_eq!(EntityUid::new("User", "a\"b\\c\n").describe(), "User::\"a\\\"b\\\\c\\n\"");
}
