use typescript_rs::diagnostic::{
    ends_with_type_alias_declaration, floor_char_boundary, line_and_column,
    normalize_unexpected_token, trailing_keyword_range, CheckResult, Diagnostic, Phase,
    ReportedDiagnostic, ReportedLabel, TextRange,
};

#[test]
fn calculates_unicode_locations() {
    assert_eq!(line_and_column("const π = 1;\nπ", 14), (2, 1));
}

#[test]
fn does_not_treat_an_incomplete_type_alias_as_an_expression() {
    let source = "type Value =";
    let end = u32::try_from(source.len()).expect("test source fits in a text range");

    assert!(normalize_unexpected_token(source, Some(TextRange::new(end, end))).is_none());
}

#[test]
fn trailing_equals_becomes_a_missing_expression() {
    let source = "const value =  \n";
    let normalized = normalize_unexpected_token(source, Some(TextRange::new(16, 16)))
        .expect("a trailing '=' is normalized");
    assert_eq!(normalized.len(), 1);
    assert_eq!(normalized[0].code, "TS1109");
    assert_eq!(normalized[0].message, "Expression expected.");
    assert_eq!(normalized[0].range, TextRange::new(13, 13));
}

#[test]
fn a_trailing_let_is_kept_as_reported() {
    let source = "const a = 1;\n  let\n";
    assert!(normalize_unexpected_token(source, Some(TextRange::new(19, 19))).is_none());
    assert!(normalize_unexpected_token("const a = 1;\nlet", Some(TextRange::new(16, 16))).is_none());
    assert_eq!(trailing_keyword_range(source, 18, "let"), Some(TextRange::new(15, 18)));
}

#[test]
fn trailing_semicolon_dot_becomes_a_missing_declaration() {
    let source = "a;.";
    let normalized = normalize_unexpected_token(source, Some(TextRange::new(2, 3)))
        .expect("a trailing ';.' is normalized");
    assert_eq!(normalized[0].code, "TS1128");
    assert_eq!(normalized[0].range, TextRange::new(2, 3));
}

#[test]
fn reports_before_the_end_are_kept() {
    assert!(normalize_unexpected_token("let x =", Some(TextRange::new(0, 3))).is_none());
    assert!(normalize_unexpected_token("let x =", None).is_none());
    assert!(normalize_unexpected_token("x + 1", Some(TextRange::new(5, 5))).is_none());
}

#[test]
fn type_alias_lines_are_recognized_after_modifiers() {
    assert!(ends_with_type_alias_declaration("export declare type Value ="));
    assert!(ends_with_type_alias_declaration("const a = 1;\r  type T ="));
    assert!(!ends_with_type_alias_declaration("type T = 1;\nconst b ="));
    assert!(!ends_with_type_alias_declaration("export"));
}

#[test]
fn offsets_inside_a_character_round_down() {
    assert_eq!(floor_char_boundary("aπb", 2), 1);
    assert_eq!(floor_char_boundary("aπb", 3), 3);
    assert_eq!(floor_char_boundary("aπb", 99), 4);
    assert_eq!(line_and_column("ab\ncd", 100), (2, 3));
}

fn reported(code: Option<&str>, message: &str, labels: Vec<ReportedLabel>) -> ReportedDiagnostic {
    ReportedDiagnostic {
        code: code.map(str::to_owned),
        message: message.to_owned(),
        labels,
    }
}

#[test]
fn reported_diagnostics_take_codes_and_primary_labels() {
    let mut result = CheckResult::new();
    result.extend_owned_oxc(
        vec![
            reported(
                Some("TS1005"),
                "';' expected.",
                vec![
                    ReportedLabel { offset: 1, len: 2, primary: false },
                    ReportedLabel { offset: 5, len: 1, primary: true },
                ],
            ),
            reported(None, "Redeclared", vec![ReportedLabel { offset: u32::MAX - 1, len: 9, primary: false }]),
            reported(None, "Global", vec![]),
        ],
        Phase::Bind,
        None,
    );
    assert_eq!(
        result.diagnostics,
        vec![
            Diagnostic::new("TS1005".to_owned(), "';' expected.".to_owned(), Phase::Bind, Some(TextRange::new(5, 6))),
            Diagnostic::new(
                "TSRS1001".to_owned(),
                "Redeclared".to_owned(),
                Phase::Bind,
                Some(TextRange::new(u32::MAX - 1, u32::MAX))
            ),
            Diagnostic::new("TSRS1001".to_owned(), "Global".to_owned(), Phase::Bind, None),
        ]
    );
    assert!(!result.is_ok());
}

#[test]
fn unexpected_tokens_at_the_end_are_normalized_with_the_source() {
    let source = "let x =";
    let mut result = CheckResult::new();
    result.extend_owned_oxc(
        vec![reported(None, "Unexpected token", vec![ReportedLabel { offset: 7, len: 0, primary: true }])],
        Phase::Parse,
        Some(source),
    );
    assert_eq!(
        result.diagnostics,
        vec![Diagnostic::new(
            "TS1109".to_owned(),
            "Expression expected.".to_owned(),
            Phase::Parse,
            Some(TextRange::new(7, 7))
        )]
    );
}

#[test]
fn concise_rendering_has_one_line_per_diagnostic() {
    let source = "const a = 1;\nconst b: string = 2;";
    let mut result = CheckResult::from_diagnostic(Diagnostic::new(
        "TS2322".to_owned(),
        "Type 'number' is not assignable to type 'string'.".to_owned(),
        Phase::Check,
        Some(TextRange::new(19, 20)),
    ));
    result.diagnostics.push(Diagnostic::new("TSRS0001".to_owned(), "no range".to_owned(), Phase::Parse, None));
    assert_eq!(
        result.render_concise(source),
        "TS2322@2:7 [check] Type 'number' is not assignable to type 'string'.\nTSRS0001 [parse] no range\n"
    );
    assert!(CheckResult::new().is_ok());
    assert_eq!(CheckResult::new().render_concise(source), "");
    assert_eq!(Phase::Bind.as_str(), "bind");
}
