use typescript_rs::diagnostic::{Diagnostic, Phase, TextRange};
use typescript_rs::tsgo::{
    case_matches_names, comparable_tsgo_diagnostics, comparable_tsrs_diagnostics, normalize_message,
    parse_code_and_message, parse_location, parse_tsgo_diagnostic_header, parse_tsgo_diagnostics,
    reference_revision, utf16_line_and_column, verify_revision_output, ComparableDiagnostic,
};

#[test]
fn parses_located_global_and_continued_diagnostics() {
    let diagnostics = parse_tsgo_diagnostics(
        "/tmp/case.ts(2,7): error TS2322: Type 'number' is not assignable\n  to type 'string'.\nerror TS5093: Global problem",
    )
    .expect("diagnostics should parse");

    assert_eq!(
        diagnostics,
        vec![
            ComparableDiagnostic {
                code: "TS2322".to_owned(),
                location: Some((2, 7)),
                message: "Type 'number' is not assignable to type 'string'.".to_owned(),
            },
            ComparableDiagnostic {
                code: "TS5093".to_owned(),
                location: None,
                message: "Global problem".to_owned(),
            },
        ]
    );
}

#[test]
fn counts_utf16_columns() {
    assert_eq!(utf16_line_and_column("😀x", 4), (1, 3));
    assert_eq!(utf16_line_and_column("first\n😀x", 10), (2, 3));
}

#[test]
fn normalizes_diagnostic_message_whitespace() {
    assert_eq!(normalize_message("one\n  two\tthree"), "one two three");
}

#[test]
fn malformed_output_is_reported() {
    assert_eq!(
        parse_tsgo_diagnostics("stray text"),
        Err("unrecognized TypeScript-Go output: stray text".to_owned())
    );
    assert_eq!(
        parse_tsgo_diagnostic_header("file.ts): error TS1: x"),
        Err("missing diagnostic location in: file.ts): error TS1: x".to_owned())
    );
    assert_eq!(parse_tsgo_diagnostic_header("plain"), Ok(None));
    assert_eq!(parse_location("3"), Err("invalid diagnostic location '3'".to_owned()));
    assert_eq!(parse_location("x,4"), Err("invalid diagnostic line 'x'".to_owned()));
    assert_eq!(parse_location("3,-4"), Err("invalid diagnostic column '-4'".to_owned()));
    assert_eq!(parse_location("+3,04"), Ok((3, 4)));
    assert_eq!(
        parse_location("99999999999999999999999,1"),
        Err("invalid diagnostic line '99999999999999999999999'".to_owned())
    );
    assert_eq!(
        parse_code_and_message("12a: text"),
        Err("invalid diagnostic code '12a'".to_owned())
    );
    assert_eq!(
        parse_code_and_message("no colon"),
        Err("invalid diagnostic text 'no colon'".to_owned())
    );
    assert_eq!(
        parse_code_and_message("  2322:  a   b "),
        Ok(("TS2322".to_owned(), "a b".to_owned()))
    );
}

#[test]
fn blank_lines_and_carriage_returns_are_skipped() {
    let parsed = parse_tsgo_diagnostics("\r\nerror TS1: a\r\n   \r\n  b\r\n").expect("parses");
    assert_eq!(
        parsed,
        vec![ComparableDiagnostic { code: "TS1".to_owned(), location: None, message: "a b".to_owned() }]
    );
}

#[test]
fn tsrs_diagnostics_are_sorted_by_code_location_and_message() {
    let source = "a\n😀b";
    let diagnostics = vec![
        Diagnostic::new("TS2".to_owned(), "z".to_owned(), Phase::Check, Some(TextRange::new(6, 7))),
        Diagnostic::new("TS2".to_owned(), "y  y".to_owned(), Phase::Check, None),
        Diagnostic::new("TS1".to_owned(), "x".to_owned(), Phase::Parse, Some(TextRange::new(0, 1))),
    ];
    assert_eq!(
        comparable_tsrs_diagnostics(source, &diagnostics),
        vec![
            ComparableDiagnostic { code: "TS1".to_owned(), location: Some((1, 1)), message: "x".to_owned() },
            ComparableDiagnostic { code: "TS2".to_owned(), location: None, message: "y y".to_owned() },
            ComparableDiagnostic { code: "TS2".to_owned(), location: Some((2, 3)), message: "z".to_owned() },
        ]
    );
}

#[test]
fn tsgo_runs_are_checked_against_their_exit_status() {
    let out = b"b.ts(1,1): error TS2: late\na.ts(1,1): error TS1: early".to_vec();
    let sorted = comparable_tsgo_diagnostics(out.clone(), Vec::new(), false, "exit status: 2").expect("parses");
    assert_eq!(sorted[0].code, "TS1");
    assert_eq!(sorted[1].code, "TS2");
    assert_eq!(
        comparable_tsgo_diagnostics(out, Vec::new(), true, "exit status: 0"),
        Err("TypeScript-Go succeeded after reporting diagnostics".to_owned())
    );
    assert_eq!(
        comparable_tsgo_diagnostics(Vec::new(), Vec::new(), false, "exit status: 1"),
        Err("TypeScript-Go exited with exit status: 1 without parseable diagnostics".to_owned())
    );
    assert_eq!(
        comparable_tsgo_diagnostics(vec![0xff], Vec::new(), false, "exit status: 1"),
        Err("TypeScript-Go stdout was not valid UTF-8".to_owned())
    );
    assert_eq!(
        comparable_tsgo_diagnostics(b"error TS1: a".to_vec(), b"error TS2: b".to_vec(), false, "x")
            .expect("parses")
            .len(),
        2
    );
}

#[test]
fn fixtures_match_by_name_or_stem() {
    assert!(case_matches_names(Some("case.ts"), Some("case"), "case"));
    assert!(case_matches_names(Some("case.ts"), Some("case"), "case.ts"));
    assert!(!case_matches_names(Some("case.ts"), Some("case"), "other"));
    assert!(!case_matches_names(None, None, "case"));
    assert!(typescript_rs::tsgo::case_matches("tests/cases/compiler/case.ts", "case"));
    assert!(!typescript_rs::tsgo::case_matches("tests/cases/..", ".."));
    assert!(!typescript_rs::tsgo::case_matches("..", ".."));
    assert!(typescript_rs::tsgo::case_matches("case.ts", "case"));
    assert!(typescript_rs::tsgo::case_matches("case.ts", "case.ts"));
    assert!(typescript_rs::tsgo::case_matches("a.b.ts", "a.b"));
    assert!(typescript_rs::tsgo::case_matches(".hidden", ".hidden"));
    assert!(!typescript_rs::tsgo::case_matches("case.ts", "other"));
    assert!(typescript_rs::tsgo::case_matches("tests/cases/compiler/case.ts", "case.ts"));
    assert!(!typescript_rs::tsgo::case_matches("tests/cases/compiler/case.ts", "tests/cases/compiler/case.ts"));
    assert!(!typescript_rs::tsgo::case_matches("tests/cases/compiler/case.ts", "compiler"));
}

#[test]
fn reads_the_one_pinned_revision() {
    let revision = "0123456789abcdef0123456789ABCDEF01234567";
    let content = format!("# pinned TypeScript-Go\n\n  {revision}  \n");
    assert_eq!(
        reference_revision(&content, "tests/tsgo-reference.txt"),
        Ok(revision.to_owned())
    );
}

#[test]
fn rejects_missing_extra_and_malformed_revisions() {
    assert_eq!(
        reference_revision("# nothing here\n", "ref.txt"),
        Err("ref.txt must contain exactly one reference revision".to_owned())
    );
    assert_eq!(
        reference_revision(
            "0123456789abcdef0123456789abcdef01234567\n0123456789abcdef0123456789abcdef01234567\n",
            "ref.txt"
        ),
        Err("ref.txt must contain exactly one reference revision".to_owned())
    );
    assert_eq!(
        reference_revision("abc123\n", "ref.txt"),
        Err("invalid reference revision 'abc123'".to_owned())
    );
    assert_eq!(
        reference_revision("0123456789abcdef0123456789abcdef0123456g\n", "ref.txt"),
        Err("invalid reference revision '0123456789abcdef0123456789abcdef0123456g'".to_owned())
    );
}

#[test]
fn checks_the_checkout_revision() {
    let expected = "0123456789abcdef0123456789abcdef01234567";
    assert_eq!(
        verify_revision_output(true, format!("{expected}\n").into_bytes(), "", "/repo", expected),
        Ok(())
    );
    assert_eq!(
        verify_revision_output(false, Vec::new(), "  fatal: not a git repository \n", "/repo", expected),
        Err("/repo is not a readable Git checkout: fatal: not a git repository".to_owned())
    );
    assert_eq!(
        verify_revision_output(true, vec![0xff, 0xfe], "", "/repo", expected),
        Err("git rev-parse returned non-UTF-8 output".to_owned())
    );
    assert_eq!(
        verify_revision_output(true, b"deadbeef\n".to_vec(), "", "/repo", expected),
        Err(format!(
            "TypeScript-Go revision mismatch: expected {expected}, found deadbeef; reference updates require reviewing and editing tests/tsgo-reference.txt"
        ))
    );
}

#[test]
fn formatted_locations_read_back() {
    for (line, column) in [(1usize, 1usize), (12, 345), (usize::MAX, 0)] {
        assert_eq!(parse_location(&format!("{line},{column}")), Ok((line, column)));
    }
    assert_eq!(parse_location("12"), Err("invalid diagnostic location '12'".to_owned()));
}

#[test]
fn utf16_columns_count_astral_characters_twice() {
    let source = "a😀b\n😀😀x";
    let (line, column) = typescript_rs::diagnostic::line_and_column(source, 15);
    assert_eq!((line, column), (2, 3));
    assert_eq!(utf16_line_and_column(source, 15), (2, 5));
    assert_eq!(typescript_rs::diagnostic::line_and_column(source, 5), (1, 3));
    assert_eq!(utf16_line_and_column(source, 5), (1, 4));
}
