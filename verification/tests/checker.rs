use typescript_rs::checker::{should_check, CheckDiagnostic, Checker};
use typescript_rs::diagnostic::TextRange;
use typescript_rs::syntax::{
    Argument, ArrayElement, AssignmentExpression, Binding, CallExpr, DeclaredName, Expr,
    ExprKind, FunctionDeclaration, IdentifierTarget, InterfaceDeclaration, Keyword, LiteralType,
    ObjectMember, ObjectProperty, Parameter, PropertySignature, ReturnStatement, TopLevel,
    TypeMember, TypeNode, TypeNodeKind, VariableDeclarator,
};
use typescript_rs::types::DisplayPiece;

fn span(start: u32, end: u32) -> TextRange {
    TextRange::new(start, end)
}

fn ty(text: &str, kind: TypeNodeKind) -> TypeNode {
    TypeNode {
        span: span(0, 0),
        text: text.to_owned(),
        kind,
    }
}

fn keyword(keyword: Keyword, text: &str) -> TypeNode {
    ty(text, TypeNodeKind::Keyword(keyword))
}

fn string_literal_type(value: &str) -> TypeNode {
    ty(
        &format!("\"{value}\""),
        TypeNodeKind::Literal(LiteralType::String(value.to_owned())),
    )
}

fn reference(name: &str) -> TypeNode {
    ty(
        name,
        TypeNodeKind::Reference {
            name: Some(name.to_owned()),
            arguments: None,
        },
    )
}

fn property(name: &str, optional: bool, annotation: TypeNode) -> TypeMember {
    TypeMember::Property(PropertySignature {
        name: Some(name.to_owned()),
        computed: false,
        optional,
        annotation: Some(annotation),
    })
}

fn expr(start: u32, end: u32, kind: ExprKind) -> Expr {
    Expr {
        span: span(start, end),
        kind,
    }
}

fn number(start: u32, end: u32, value: f64) -> Expr {
    expr(start, end, ExprKind::Number(value.to_bits()))
}

fn string(start: u32, end: u32, value: &str) -> Expr {
    expr(start, end, ExprKind::String(value.to_owned()))
}

fn object_property(name: &str, key_start: u32, value: Expr) -> ObjectMember {
    ObjectMember::Property(ObjectProperty {
        name: Some(name.to_owned()),
        key_span: span(key_start, key_start + name.len() as u32),
        computed: false,
        method: false,
        value,
    })
}

fn declarator(symbol: u32, id_span: TextRange, annotation: Option<TypeNode>, init: Option<Expr>) -> VariableDeclarator {
    VariableDeclarator {
        binding: Binding::Identifier(Some(symbol)),
        id_span,
        annotation,
        init,
    }
}

fn render(pieces: &[DisplayPiece]) -> String {
    let mut text = String::new();
    for piece in pieces {
        match piece {
            DisplayPiece::Text(part) => text.push_str(part),
            DisplayPiece::Number(number) => text.push_str(&f64::from_bits(number.bits()).to_string()),
        }
    }
    text
}

fn rendered(diagnostics: &[CheckDiagnostic]) -> Vec<(String, String, Option<(u32, u32)>)> {
    diagnostics
        .iter()
        .map(|diagnostic| {
            (
                diagnostic.code.clone(),
                render(&diagnostic.message),
                diagnostic.range.map(|range| (range.start, range.end)),
            )
        })
        .collect()
}

fn parameter(symbol: u32, annotation: TypeNode) -> Parameter {
    Parameter {
        optional: false,
        has_initializer: false,
        has_accessibility: false,
        readonly: false,
        is_override: false,
        has_decorators: false,
        binding: Binding::Identifier(Some(symbol)),
        annotation: Some(annotation),
    }
}

fn function(symbol: u32, parameters: Vec<Parameter>, return_annotation: TypeNode) -> TopLevel {
    TopLevel::Function(FunctionDeclaration {
        is_declaration: true,
        generator: false,
        is_async: false,
        declare: false,
        has_type_parameters: false,
        has_this_parameter: false,
        has_rest_parameter: false,
        has_body: true,
        id: Some(DeclaredName {
            symbol: Some(symbol),
            unique: true,
        }),
        parameters,
        return_annotation: Some(return_annotation),
    })
}

fn call(symbol: u32, callee_span: TextRange, arguments: Vec<Expr>) -> CallExpr {
    CallExpr {
        callee: Box::new(Expr {
            span: callee_span,
            kind: ExprKind::Identifier {
                name: "f".to_owned(),
                symbol: Some(symbol),
            },
        }),
        optional: false,
        has_type_arguments: false,
        arguments: arguments
            .into_iter()
            .map(|argument| Argument {
                span: argument.span,
                expression: Some(argument),
            })
            .collect(),
    }
}

#[test]
fn reports_a_primitive_initializer_mismatch_at_the_name() {
    // const x: string = 1;
    let program = Vec::new();
    let mut checker = Checker::new(&program);
    checker.variable_declarator(&declarator(
        0,
        span(6, 7),
        Some(keyword(Keyword::String, "string")),
        Some(number(18, 19, 1.0)),
    ));
    assert_eq!(
        rendered(&checker.into_diagnostics()),
        vec![(
            "TS2322".to_owned(),
            "Type 'number' is not assignable to type 'string'.".to_owned(),
            Some((6, 7))
        )]
    );
}

#[test]
fn literal_union_aliases_keep_literal_types_and_alias_names() {
    // type Status = "open" | "closed";
    // const ok: Status = "open";
    // const bad: Status = "pending";
    let program = vec![TopLevel::Alias {
        name: "Status".to_owned(),
        has_type_parameters: false,
        annotation: ty(
            "\"open\" | \"closed\"",
            TypeNodeKind::Union(vec![string_literal_type("open"), string_literal_type("closed")]),
        ),
    }];
    let mut checker = Checker::new(&program);
    checker.variable_declarator(&declarator(0, span(40, 42), Some(reference("Status")), Some(string(53, 59, "open"))));
    checker.variable_declarator(&declarator(1, span(67, 70), Some(reference("Status")), Some(string(81, 90, "pending"))));
    assert_eq!(
        rendered(&checker.into_diagnostics()),
        vec![(
            "TS2322".to_owned(),
            "Type '\"pending\"' is not assignable to type 'Status'.".to_owned(),
            Some((67, 70))
        )]
    );
}

#[test]
fn negative_numeric_literals_are_literal_types() {
    // const a: -1 = -1;  const b: -1 = 1;
    let negative_one = || ty("-1", TypeNodeKind::Literal(LiteralType::NegatedNumber(1.0f64.to_bits())));
    let program = Vec::new();
    let mut checker = Checker::new(&program);
    checker.variable_declarator(&declarator(
        0,
        span(6, 7),
        Some(negative_one()),
        Some(expr(14, 16, ExprKind::Negation(Box::new(number(15, 16, 1.0))))),
    ));
    checker.variable_declarator(&declarator(1, span(24, 25), Some(negative_one()), Some(number(32, 33, 1.0))));
    assert_eq!(
        rendered(&checker.into_diagnostics()),
        vec![(
            "TS2322".to_owned(),
            "Type '1' is not assignable to type '-1'.".to_owned(),
            Some((24, 25))
        )]
    );
}

#[test]
fn reports_a_missing_property_of_an_object_type_literal() {
    // const p: { a: number; b: string } = { a: 1 };
    let annotation = ty(
        "{ a: number; b: string }",
        TypeNodeKind::TypeLiteral(vec![
            property("a", false, keyword(Keyword::Number, "number")),
            property("b", false, keyword(Keyword::String, "string")),
        ]),
    );
    let value = expr(36, 44, ExprKind::Object(vec![object_property("a", 38, number(41, 42, 1.0))]));
    let program = Vec::new();
    let mut checker = Checker::new(&program);
    checker.variable_declarator(&declarator(0, span(6, 7), Some(annotation), Some(value)));
    assert_eq!(
        rendered(&checker.into_diagnostics()),
        vec![(
            "TS2741".to_owned(),
            "Property 'b' is missing in type '{ a: number; }' but required in type '{ a: number; b: string; }'.".to_owned(),
            Some((6, 7))
        )]
    );
}

#[test]
fn reports_several_missing_properties_of_an_interface() {
    // interface Point { x: number; y: number; label?: string }
    // const p: Point = {};
    let program = vec![TopLevel::Interface(InterfaceDeclaration {
        name: "Point".to_owned(),
        has_type_parameters: false,
        has_extends: false,
        unique: true,
        members: vec![
            property("x", false, keyword(Keyword::Number, "number")),
            property("y", false, keyword(Keyword::Number, "number")),
            property("label", true, keyword(Keyword::String, "string")),
        ],
    })];
    let mut checker = Checker::new(&program);
    checker.variable_declarator(&declarator(
        0,
        span(60, 61),
        Some(reference("Point")),
        Some(expr(71, 73, ExprKind::Object(Vec::new()))),
    ));
    assert_eq!(
        rendered(&checker.into_diagnostics()),
        vec![(
            "TS2739".to_owned(),
            "Type '{}' is missing the following properties from type 'Point': x, y".to_owned(),
            Some((60, 61))
        )]
    );
}

#[test]
fn reports_excess_and_mistyped_properties_at_their_keys() {
    // const p: { a: number } = { a: "x", c: 2 };
    let annotation = ty(
        "{ a: number }",
        TypeNodeKind::TypeLiteral(vec![property("a", false, keyword(Keyword::Number, "number"))]),
    );
    let value = expr(
        25,
        41,
        ExprKind::Object(vec![
            object_property("a", 27, string(30, 33, "x")),
            object_property("c", 35, number(38, 39, 2.0)),
        ]),
    );
    let program = Vec::new();
    let mut checker = Checker::new(&program);
    checker.variable_declarator(&declarator(0, span(6, 7), Some(annotation), Some(value)));
    assert_eq!(
        rendered(&checker.into_diagnostics()),
        vec![
            (
                "TS2322".to_owned(),
                "Type 'string' is not assignable to type 'number'.".to_owned(),
                Some((27, 28))
            ),
            (
                "TS2353".to_owned(),
                "Object literal may only specify known properties, and 'c' does not exist in type '{ a: number; }'.".to_owned(),
                Some((35, 36))
            ),
        ]
    );
}

#[test]
fn reports_incorrect_array_elements_where_they_are() {
    // const xs: number[] = [1, "a"];
    let annotation = ty("number[]", TypeNodeKind::Array(Box::new(keyword(Keyword::Number, "number"))));
    let value = expr(
        21,
        29,
        ExprKind::Array(vec![
            ArrayElement::Expression(number(22, 23, 1.0)),
            ArrayElement::Expression(string(25, 28, "a")),
        ]),
    );
    let program = Vec::new();
    let mut checker = Checker::new(&program);
    checker.variable_declarator(&declarator(0, span(6, 8), Some(annotation), Some(value)));
    assert_eq!(
        rendered(&checker.into_diagnostics()),
        vec![(
            "TS2322".to_owned(),
            "Type 'string' is not assignable to type 'number'.".to_owned(),
            Some((25, 28))
        )]
    );
}

#[test]
fn generic_arrays_and_element_arrays_are_one_type() {
    // const xs: Array<number> = [1, 2]; const ys: number[] = xs;
    let generic = ty(
        "Array<number>",
        TypeNodeKind::Reference {
            name: Some("Array".to_owned()),
            arguments: Some(vec![keyword(Keyword::Number, "number")]),
        },
    );
    let value = expr(
        26,
        32,
        ExprKind::Array(vec![
            ArrayElement::Expression(number(27, 28, 1.0)),
            ArrayElement::Expression(number(30, 31, 2.0)),
        ]),
    );
    let program = Vec::new();
    let mut checker = Checker::new(&program);
    checker.variable_declarator(&declarator(0, span(6, 8), Some(generic), Some(value)));
    checker.variable_declarator(&declarator(
        1,
        span(40, 42),
        Some(ty("number[]", TypeNodeKind::Array(Box::new(keyword(Keyword::Number, "number"))))),
        Some(expr(
            55,
            57,
            ExprKind::Identifier {
                name: "xs".to_owned(),
                symbol: Some(0),
            },
        )),
    ));
    assert!(checker.into_diagnostics().is_empty());
}

#[test]
fn checks_calls_against_annotated_signatures() {
    // function f(a: number): number { return a; }
    // f(1, 2); f("x");
    let program = vec![function(7, vec![parameter(8, keyword(Keyword::Number, "number"))], keyword(Keyword::Number, "number"))];
    let mut checker = Checker::new(&program);
    checker.call_expression(&call(7, span(44, 45), vec![number(46, 47, 1.0), number(49, 50, 2.0)]));
    checker.call_expression(&call(7, span(53, 54), vec![string(55, 58, "x")]));
    checker.call_expression(&call(7, span(60, 61), Vec::new()));
    assert_eq!(
        rendered(&checker.into_diagnostics()),
        vec![
            (
                "TS2554".to_owned(),
                "Expected 1 arguments, but got 2.".to_owned(),
                Some((49, 50))
            ),
            (
                "TS2345".to_owned(),
                "Argument of type 'string' is not assignable to parameter of type 'number'.".to_owned(),
                Some((55, 58))
            ),
            (
                "TS2554".to_owned(),
                "Expected 1 arguments, but got 0.".to_owned(),
                Some((60, 61))
            ),
        ]
    );
}

#[test]
fn checks_returns_inside_the_annotated_function_only() {
    // function f(a: number): number { return "x"; }  () => { return "y"; }
    let program = vec![function(7, vec![parameter(8, keyword(Keyword::Number, "number"))], keyword(Keyword::Number, "number"))];
    let mut checker = Checker::new(&program);
    let previous = checker.enter_function(Some(7));
    checker.return_statement(&ReturnStatement {
        span: span(32, 43),
        argument: Some(string(39, 42, "x")),
    });
    let inner = checker.enter_arrow_function();
    checker.return_statement(&ReturnStatement {
        span: span(60, 71),
        argument: Some(string(67, 70, "y")),
    });
    checker.leave_function(inner);
    checker.return_statement(&ReturnStatement {
        span: span(80, 89),
        argument: Some(expr(
            87,
            88,
            ExprKind::Identifier {
                name: "a".to_owned(),
                symbol: Some(8),
            },
        )),
    });
    checker.leave_function(previous);
    checker.return_statement(&ReturnStatement {
        span: span(90, 99),
        argument: Some(string(97, 98, "z")),
    });
    assert_eq!(
        rendered(&checker.into_diagnostics()),
        vec![(
            "TS2322".to_owned(),
            "Type 'string' is not assignable to type 'number'.".to_owned(),
            Some((32, 43))
        )]
    );
}

#[test]
fn checks_plain_assignments_against_the_declared_type() {
    // let x: number = 1; x = "s"; x += "t";
    let program = Vec::new();
    let mut checker = Checker::new(&program);
    checker.variable_declarator(&declarator(3, span(4, 5), Some(keyword(Keyword::Number, "number")), Some(number(16, 17, 1.0))));
    let target = Some(IdentifierTarget {
        symbol: Some(3),
        span: span(19, 20),
    });
    checker.assignment_expression(&AssignmentExpression {
        plain: true,
        target,
        right: string(23, 26, "s"),
    });
    checker.assignment_expression(&AssignmentExpression {
        plain: false,
        target,
        right: string(33, 36, "t"),
    });
    assert_eq!(
        rendered(&checker.into_diagnostics()),
        vec![(
            "TS2322".to_owned(),
            "Type 'string' is not assignable to type 'number'.".to_owned(),
            Some((19, 20))
        )]
    );
}

#[test]
fn recursive_aliases_resolve_to_nothing() {
    // type A = B; type B = A; const x: A = 1;
    let program = vec![
        TopLevel::Alias {
            name: "A".to_owned(),
            has_type_parameters: false,
            annotation: reference("B"),
        },
        TopLevel::Alias {
            name: "B".to_owned(),
            has_type_parameters: false,
            annotation: reference("A"),
        },
    ];
    let mut checker = Checker::new(&program);
    checker.variable_declarator(&declarator(0, span(30, 31), Some(reference("A")), Some(number(36, 37, 1.0))));
    assert!(checker.into_diagnostics().is_empty());
}

#[test]
fn the_checker_runs_only_on_clean_or_recovered_programs() {
    assert!(should_check(true, true, false));
    assert!(should_check(false, true, true));
    assert!(!should_check(false, true, false));
    assert!(!should_check(true, false, true));
}
