//! The report of the lint command.

use cedar_analysis::lint::{
    diagnostic, error_line, label, summary, CedarExitCode, LintArgs, SchemaArgs, SchemaFormat,
};
use cedar_analysis::simplify::{Finding, FindingKind};

fn args(format: SchemaFormat, file: Option<&str>, deny: bool) -> LintArgs {
    LintArgs {
        schema: SchemaArgs { schema_file: "s.cedarschema".to_string(), schema_format: format },
        policies_file: file.map(|f| f.to_string()),
        cvc5_path: None,
        json: false,
        deny_findings: deny,
    }
}

fn finding(kind: FindingKind) -> Finding {
    Finding { offset: 3, length: 4, kind, message: "a message".to_string() }
}

#[test]
fn the_document_is_named() {
    assert_eq!(args(SchemaFormat::Cedar, Some("p.cedar"), false).document_name(), "p.cedar");
    assert_eq!(args(SchemaFormat::Cedar, None, false).document_name(), "<stdin>");
}

#[test]
fn the_schema_format_is_known() {
    assert!(!args(SchemaFormat::Cedar, None, false).schema_is_json());
    assert!(args(SchemaFormat::Json, None, false).schema_is_json());
}

#[test]
fn findings_fail_only_where_they_are_denied() {
    let one = vec![finding(FindingKind::NeverTrue)];
    let code = |deny: bool, findings: Vec<Finding>| {
        args(SchemaFormat::Cedar, None, deny).exit_code(&Ok::<Vec<Finding>, String>(findings))
    };
    assert_eq!(code(false, vec![]), CedarExitCode::Success);
    assert_eq!(code(true, vec![]), CedarExitCode::Success);
    assert_eq!(code(true, one), CedarExitCode::ValidationFailure);
    assert_eq!(code(false, vec![finding(FindingKind::NeverTrue)]), CedarExitCode::Success);
}

#[test]
fn an_error_is_a_failure() {
    for deny in [false, true] {
        let failed: Result<Vec<Finding>, String> = Err("no schema".to_string());
        assert_eq!(
            args(SchemaFormat::Cedar, None, deny).exit_code(&failed),
            CedarExitCode::Failure
        );
    }
}

#[test]
fn the_summary_counts() {
    assert_eq!(summary(&vec![]), "no findings");
    assert_eq!(summary(&vec![finding(FindingKind::NeverTrue)]), "1 finding(s)");
    let many: Vec<Finding> = (0..120).map(|_| finding(FindingKind::NeverTrue)).collect();
    assert_eq!(summary(&many), "120 finding(s)");
}

#[test]
fn findings_are_labelled() {
    for (kind, text) in [
        (FindingKind::NeverTrue, "never true"),
        (FindingKind::NeverFalse, "never false"),
        (FindingKind::AlwaysError, "always errors"),
    ] {
        assert_eq!(label(kind), text);
        let d = diagnostic(&finding(kind));
        assert_eq!((d.offset, d.length, d.label), (3, 4, text));
        assert_eq!(d.message, "a message");
    }
}

#[test]
fn errors_are_one_line() {
    let chain = |parts: &[&str]| parts.iter().map(|p| p.to_string()).collect::<Vec<_>>();
    assert_eq!(error_line(&chain(&[])), "");
    assert_eq!(error_line(&chain(&["outer"])), "outer");
    assert_eq!(error_line(&chain(&["outer", "middle", "inner"])), "outer: middle: inner");
}
