//! One source file through the pipeline: which files are TypeScript or
//! JavaScript sources, and how the parser's, binder's and checker's
//! diagnostics make up the file's result.

use oxc_span::SourceType;
use vstd::prelude::*;

use crate::checker::should_check;
use crate::diagnostic::{
    all_owned_diagnostics, diagnostics_view, reported_view, CheckResult, Diagnostic, DiagnosticView,
    Phase, ReportedDiagnostic, ReportedView,
};
use crate::text::{last_occurrence, push_str};
use crate::tsgo::{final_component, plain_path, single_component};

verus! {

/// How the parser reads a source file: language, module kind and variant.
#[verifier::external_type_specification]
#[verifier::external_body]
pub struct ExSourceType(SourceType);

/// The file extensions of the sources that are read: JavaScript and
/// TypeScript ones.
pub open spec fn source_extensions() -> Seq<Seq<char>> {
    seq!["js"@, "mjs"@, "cjs"@, "jsx"@, "ts"@, "mts"@, "cts"@, "tsx"@]
}

/// Whether a file name has one of the source extensions: the text after
/// its last `.`, where that `.` is not its first character.
pub open spec fn has_source_extension(name: Seq<char>) -> bool {
    match last_occurrence(name, "."@) {
        Some(k) => k > 0 && source_extensions().contains(name.skip(k + 1)),
        None => false,
    }
}

/// How the parser reads the file at `path` (`SourceType::from_path`), when
/// its extension is a source one. Which characters separate a path's
/// components is the platform's; what is stated holds on every platform
/// for a path that splits at `/` alone and whose text after its last `/`
/// is one plain component: the file is read exactly when that name has a
/// source extension.
#[verifier::external_body]
fn source_type_from_path(path: &str) -> (r: Option<SourceType>)
    ensures
        plain_path(path@) && single_component(final_component(path@)) ==> (r is Some
            <==> has_source_extension(final_component(path@))),
{
    SourceType::from_path(path).ok()
}

/// How the parser reads the file named `file_name`, if it reads it at all.
pub fn source_type(file_name: &str) -> (r: Option<SourceType>)
    ensures
        plain_path(file_name@) && single_component(final_component(file_name@)) ==> (r is Some
            <==> has_source_extension(final_component(file_name@))),
{
    source_type_from_path(file_name)
}

/// What parsing, binding and checking one source file reported.
#[derive(Debug)]
pub struct ParseOutcome {
    /// The parser's reports.
    pub parse: Vec<ReportedDiagnostic>,
    /// Whether the parser gave up on the file.
    pub panicked: bool,
    /// The binder's reports.
    pub bind: Vec<ReportedDiagnostic>,
    /// Whether the parser recovered from what it reported.
    pub recovered: bool,
    /// The checker's diagnostics, where the checker ran.
    pub checked: Vec<Diagnostic>,
}

/// Whether the checker runs on a file: the binder reported nothing, and the
/// parser reported nothing or recovered from what it reported.
pub open spec fn checker_runs(parse: Seq<ReportedView>, bind: Seq<ReportedView>, recovered: bool) -> bool {
    bind.len() == 0 && (parse.len() == 0 || recovered)
}

/// Whether the checker runs on a file with these parser and binder reports.
pub fn runs_checker(parse: &Vec<ReportedDiagnostic>, bind: &Vec<ReportedDiagnostic>, recovered: bool) -> (r: bool)
    ensures
        r == checker_runs(reported_view(parse@), reported_view(bind@), recovered),
{
    should_check(parse.len() == 0, bind.len() == 0, recovered)
}

/// The diagnostic for a file that is not read.
pub open spec fn unsupported_view(file_name: Seq<char>) -> DiagnosticView {
    DiagnosticView {
        code: "TSRS0001"@,
        message: "unsupported source file extension for '"@ + file_name + "'"@,
        phase: Phase::Parse,
        range: None,
    }
}

/// The diagnostics of one file: for a file that is not read, the one that
/// says so; else the parser's, then (unless the parser gave up) the
/// binder's, then the checker's where the checker runs.
pub open spec fn file_diagnostics(
    file_name: Seq<char>,
    source_text: Seq<char>,
    read: bool,
    parse: Seq<ReportedView>,
    panicked: bool,
    bind: Seq<ReportedView>,
    recovered: bool,
    checked: Seq<DiagnosticView>,
) -> Seq<DiagnosticView> {
    if !read {
        seq![unsupported_view(file_name)]
    } else {
        let parsed = all_owned_diagnostics(parse, Phase::Parse, Some(source_text));
        if panicked {
            parsed
        } else {
            parsed + all_owned_diagnostics(bind, Phase::Bind, None) + if checker_runs(parse, bind, recovered) {
                checked
            } else {
                Seq::empty()
            }
        }
    }
}

/// The result for a file that is not read.
pub fn unsupported_file(file_name: &str) -> (r: CheckResult)
    ensures
        diagnostics_view(r.diagnostics@) == seq![unsupported_view(file_name@)],
{
    let mut message = "unsupported source file extension for '".to_owned();
    push_str(&mut message, file_name);
    push_str(&mut message, "'");
    let d = Diagnostic::new("TSRS0001".to_owned(), message, Phase::Parse, None);
    let r = CheckResult::from_diagnostic(d);
    assert(diagnostics_view(r.diagnostics@) =~= seq![unsupported_view(file_name@)]);
    r
}

/// The result for one source file: `source` is how the parser reads the
/// file (see [`source_type`]), and `outcome` what parsing, binding and
/// checking it reported.
pub fn check_file(file_name: &str, source_text: &str, source: Option<SourceType>, outcome: ParseOutcome) -> (r:
    CheckResult)
    ensures
        diagnostics_view(r.diagnostics@) == file_diagnostics(
            file_name@,
            source_text@,
            source is Some,
            reported_view(outcome.parse@),
            outcome.panicked,
            reported_view(outcome.bind@),
            outcome.recovered,
            diagnostics_view(outcome.checked@),
        ),
{
    if source.is_none() {
        return unsupported_file(file_name);
    }
    let ParseOutcome { parse, panicked, bind, recovered, checked } = outcome;
    let can_check = runs_checker(&parse, &bind, recovered);
    let mut result = CheckResult::new();
    proof {
        assert(diagnostics_view(result.diagnostics@) =~= Seq::<DiagnosticView>::empty());
    }
    result.extend_owned_oxc(parse, Phase::Parse, Some(source_text));
    if panicked {
        proof {
            assert(diagnostics_view(result.diagnostics@) =~= all_owned_diagnostics(
                reported_view(outcome.parse@),
                Phase::Parse,
                Some(source_text@),
            ));
        }
        return result;
    }
    result.extend_owned_oxc(bind, Phase::Bind, None);
    let ghost before = diagnostics_view(result.diagnostics@);
    if can_check {
        let mut checked = checked;
        let ghost found = checked@;
        result.diagnostics.append(&mut checked);
        proof {
            assert(diagnostics_view(result.diagnostics@) =~= before + diagnostics_view(found));
        }
    }
    proof {
        assert(diagnostics_view(result.diagnostics@) =~= file_diagnostics(
            file_name@,
            source_text@,
            true,
            reported_view(outcome.parse@),
            false,
            reported_view(outcome.bind@),
            outcome.recovered,
            diagnostics_view(outcome.checked@),
        ));
    }
    result
}

} // verus!
