use typescript_rs::diagnostic::{Diagnostic, Phase, TextRange};
use typescript_rs::editor::{diagnostic_range, position_at, to_lsp_range, Document, Position, Range};
use typescript_rs::playground::{playground_projection, PlaygroundDiagnostic, PlaygroundTextRange};
use typescript_rs::diagnostic::CheckResult;

#[test]
fn converts_utf8_offsets_to_utf16_positions() {
    let source = "const value = '😀';\nvalue";

    assert_eq!(position_at(source, 19), Position::new(0, 17));
    assert_eq!(position_at(source, 22), Position::new(1, 0));
}

#[test]
fn converts_diagnostic_ranges_at_the_lsp_boundary() {
    let source = "😀\nvalue";

    assert_eq!(
        to_lsp_range(source, TextRange::new(5, 10)),
        Range::new(Position::new(1, 0), Position::new(1, 5))
    );
}

#[test]
fn diagnostics_without_a_range_sit_at_the_start() {
    let diagnostic = Diagnostic::new("TS1".to_owned(), "m".to_owned(), Phase::Parse, None);
    assert_eq!(
        diagnostic_range(&diagnostic, "text"),
        Range::new(Position::new(0, 0), Position::new(0, 0))
    );
    assert_eq!(position_at("😀", 2), Position::new(0, 0));
}

#[test]
fn documents_take_only_newer_versions() {
    let mut document = Document { file_name: "file:///a.ts".to_owned(), text: "one".to_owned(), version: 2 };
    assert!(!document.apply_change(2, "two".to_owned()));
    assert_eq!(document.text, "one");
    assert!(!document.apply_change(1, "zero".to_owned()));
    assert!(document.apply_change(3, "three".to_owned()));
    assert_eq!(document.text, "three");
    assert_eq!(document.version, 3);
}

#[test]
fn playground_diagnostics_are_an_exact_projection() {
    let result = CheckResult {
        diagnostics: vec![
            Diagnostic::new("TS2322".to_owned(), "wrong".to_owned(), Phase::Check, Some(TextRange::new(6, 11))),
            Diagnostic::new("TSRS1001".to_owned(), "bind".to_owned(), Phase::Bind, None),
        ],
    };
    let projected = playground_projection(&result);
    assert_eq!(
        projected,
        vec![
            PlaygroundDiagnostic {
                code: "TS2322".to_owned(),
                message: "wrong".to_owned(),
                phase: "check".to_owned(),
                range: Some(PlaygroundTextRange { start: 6, end: 11 }),
            },
            PlaygroundDiagnostic {
                code: "TSRS1001".to_owned(),
                message: "bind".to_owned(),
                phase: "bind".to_owned(),
                range: None,
            },
        ]
    );
    assert_eq!(PlaygroundTextRange::from(TextRange::new(1, 2)), PlaygroundTextRange { start: 1, end: 2 });
}
