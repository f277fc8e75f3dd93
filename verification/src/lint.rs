//! `cedar lint`: the policy simplifier as a command. Every expression of a
//! policy set that is statically true, false or an error in every request
//! environment of the schema (given what is evaluated before it, and the
//! schema's `@semantics` assumptions) is a finding, reported as a warning on
//! its source span, or as JSON for editors.

use vstd::prelude::*;

use crate::simplify::{Finding, FindingKind};
use crate::text::{decimal, join};

verus! {

/// The syntax a schema is written in.
#[derive(Clone, Copy, Debug, PartialEq, Eq, Structural)]
pub enum SchemaFormat {
    Cedar,
    Json,
}

/// Where the schema is, and its syntax.
#[derive(Debug)]
pub struct SchemaArgs {
    pub schema_file: String,
    pub schema_format: SchemaFormat,
}

/// The arguments of the command.
#[derive(Debug)]
pub struct LintArgs {
    /// Where the schema is.
    pub schema: SchemaArgs,
    /// File containing the policies (the findings point into it). If not
    /// provided, the policies are read from stdin.
    pub policies_file: Option<String>,
    /// Path to the CVC5 solver executable.
    pub cvc5_path: Option<String>,
    /// Print the findings as a JSON array of `{offset, length, kind, message}`
    /// (byte offsets into the policy document), for editors; errors are then
    /// one line on stderr.
    pub json: bool,
    /// Exit with a validation failure when there is any finding.
    pub deny_findings: bool,
}

/// How the command ends.
#[derive(Clone, Copy, Debug, PartialEq, Eq, Structural)]
pub enum CedarExitCode {
    Success,
    Failure,
    ValidationFailure,
}

/// One finding as a diagnostic on the policy document: the message, the span,
/// and the label of the span.
#[derive(Debug)]
pub struct LintFinding {
    pub message: String,
    pub offset: usize,
    pub length: usize,
    pub label: &'static str,
}

/// What a finding's span is labelled.
pub open spec fn label_of(kind: FindingKind) -> Seq<char> {
    match kind {
        FindingKind::NeverTrue => "never true"@,
        FindingKind::NeverFalse => "never false"@,
        FindingKind::AlwaysError => "always errors"@,
    }
}

/// What a finding's span is labelled.
pub fn label(kind: FindingKind) -> (r: &'static str)
    ensures
        r@ == label_of(kind),
{
    match kind {
        FindingKind::NeverTrue => "never true",
        FindingKind::NeverFalse => "never false",
        FindingKind::AlwaysError => "always errors",
    }
}

/// The finding as a diagnostic.
pub fn diagnostic(finding: &Finding) -> (r: LintFinding)
    ensures
        r.message@ == finding.message@,
        r.offset == finding.offset,
        r.length == finding.length,
        r.label@ == label_of(finding.kind),
{
    LintFinding {
        message: finding.message.clone(),
        offset: finding.offset,
        length: finding.length,
        label: label(finding.kind),
    }
}

impl LintArgs {
    /// The name of the policy document in diagnostics.
    pub fn document_name(&self) -> (r: String)
        ensures
            r@ == match self.policies_file {
                Some(f) => f@,
                None => "<stdin>"@,
            },
    {
        match &self.policies_file {
            Some(f) => f.clone(),
            None => "<stdin>".to_owned(),
        }
    }

    /// Whether the schema is written in JSON.
    pub fn schema_is_json(&self) -> (r: bool)
        ensures
            r == (self.schema.schema_format == SchemaFormat::Json),
    {
        match self.schema.schema_format {
            SchemaFormat::Json => true,
            SchemaFormat::Cedar => false,
        }
    }

    /// How the command ends: an error is a failure, and findings are a
    /// validation failure only if they are denied.
    pub fn exit_code<E>(&self, result: &Result<Vec<Finding>, E>) -> (r: CedarExitCode)
        ensures
            r == match result {
                Ok(findings) => if self.deny_findings && findings@.len() > 0 {
                    CedarExitCode::ValidationFailure
                } else {
                    CedarExitCode::Success
                },
                Err(_) => CedarExitCode::Failure,
            },
    {
        match result {
            Ok(findings) => if self.deny_findings && findings.len() > 0 {
                CedarExitCode::ValidationFailure
            } else {
                CedarExitCode::Success
            },
            Err(_) => CedarExitCode::Failure,
        }
    }
}

/// The last line of the report.
pub fn summary(findings: &Vec<Finding>) -> (r: String)
    ensures
        r@ == if findings@.len() == 0 {
            "no findings"@
        } else {
            crate::text::digits(findings@.len()) + " finding(s)"@
        },
{
    if findings.len() == 0 {
        "no findings".to_owned()
    } else {
        decimal(findings.len()).concat(" finding(s)")
    }
}

/// An error as one line, its causes joined, the outermost first: editors match
/// on it.
pub fn error_line(chain: &Vec<String>) -> (r: String)
    ensures
        r@ == crate::text::joined(chain@, ": "@),
{
    join(chain, ": ")
}

} // verus!
