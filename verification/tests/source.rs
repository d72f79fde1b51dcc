use typescript_rs::diagnostic::{Diagnostic, Phase, ReportedDiagnostic, ReportedLabel, TextRange};
use typescript_rs::source::{check_file, runs_checker, source_type, unsupported_file, ParseOutcome};

fn report(message: &str, offset: u32, len: u32) -> ReportedDiagnostic {
    ReportedDiagnostic {
        code: None,
        message: message.to_owned(),
        labels: vec![ReportedLabel { offset, len, primary: true }],
    }
}

fn checked() -> Vec<Diagnostic> {
    vec![Diagnostic::new(
        "TS2322".to_owned(),
        "Type 'string' is not assignable to type 'number'.".to_owned(),
        Phase::Check,
        Some(TextRange::new(6, 11)),
    )]
}

#[test]
fn source_extensions_are_the_javascript_and_typescript_ones() {
    for name in ["a.ts", "a.tsx", "a.mts", "a.cts", "a.js", "a.jsx", "a.mjs", "a.cjs", "dir/a.d.ts"] {
        assert!(source_type(name).is_some(), "{name}");
    }
    for name in ["a.txt", "a", ".ts", "dir/readme.md"] {
        assert!(source_type(name).is_none(), "{name}");
    }
}

#[test]
fn an_unread_file_gets_one_diagnostic_without_a_range() {
    let result = check_file("notes.txt", "", None, ParseOutcome {
        parse: Vec::new(),
        panicked: false,
        bind: Vec::new(),
        recovered: false,
        checked: checked(),
    });
    assert_eq!(result.diagnostics.len(), 1);
    assert_eq!(result.diagnostics[0].code, "TSRS0001");
    assert_eq!(result.diagnostics[0].message, "unsupported source file extension for 'notes.txt'");
    assert_eq!(result.diagnostics[0].phase, Phase::Parse);
    assert_eq!(result.diagnostics[0].range, None);
    assert_eq!(unsupported_file("notes.txt").diagnostics, result.diagnostics);
}

#[test]
fn a_clean_file_reports_what_the_checker_found() {
    let outcome = ParseOutcome {
        parse: Vec::new(),
        panicked: false,
        bind: Vec::new(),
        recovered: false,
        checked: checked(),
    };
    let result = check_file("a.ts", "const x: number = \"s\";", source_type("a.ts"), outcome);
    assert_eq!(result.diagnostics, checked());
}

#[test]
fn parse_errors_without_recovery_keep_the_checker_out() {
    let source = "let x =";
    let parse = vec![report("Unexpected token", 7, 0)];
    assert!(!runs_checker(&parse, &Vec::new(), false));
    assert!(runs_checker(&parse, &Vec::new(), true));
    let outcome = ParseOutcome { parse, panicked: false, bind: Vec::new(), recovered: false, checked: checked() };
    let result = check_file("a.ts", source, source_type("a.ts"), outcome);
    assert_eq!(result.diagnostics.len(), 1);
    assert_eq!(result.diagnostics[0].code, "TS1109");
    assert_eq!(result.diagnostics[0].range, Some(TextRange::new(7, 7)));
}

#[test]
fn a_parser_that_gives_up_stops_the_file() {
    let outcome = ParseOutcome {
        parse: vec![report("Unterminated string", 0, 1)],
        panicked: true,
        bind: vec![report("Duplicate declaration", 0, 1)],
        recovered: true,
        checked: checked(),
    };
    let result = check_file("a.ts", "\"", source_type("a.ts"), outcome);
    assert_eq!(result.diagnostics.len(), 1);
    assert_eq!(result.diagnostics[0].code, "TSRS1000");
    assert_eq!(result.diagnostics[0].phase, Phase::Parse);
}

#[test]
fn binder_reports_come_after_the_parser_and_keep_the_checker_out() {
    let outcome = ParseOutcome {
        parse: Vec::new(),
        panicked: false,
        bind: vec![report("Identifier `x` has already been declared", 4, 1)],
        recovered: false,
        checked: checked(),
    };
    let result = check_file("a.ts", "let x; let x;", source_type("a.ts"), outcome);
    assert_eq!(result.diagnostics.len(), 1);
    assert_eq!(result.diagnostics[0].code, "TSRS1001");
    assert_eq!(result.diagnostics[0].phase, Phase::Bind);
    assert_eq!(result.diagnostics[0].range, Some(TextRange::new(4, 5)));
}
