//! What the checker reads of a parsed and bound TypeScript program, as plain
//! values: type annotations, expressions, and the declarations and
//! statements it checks. Symbols are the binder's symbol numbers; an
//! identifier carries the symbol its reference resolves to, if any.

use vstd::prelude::*;

use crate::diagnostic::TextRange;

verus! {

/// A keyword type annotation.
#[derive(Clone, Copy, Debug, PartialEq, Eq, Structural)]
pub enum Keyword {
    Any,
    Unknown,
    Never,
    Void,
    Undefined,
    Null,
    Boolean,
    Number,
    BigInt,
    String,
}

/// A literal type annotation.
#[derive(Debug)]
pub enum LiteralType {
    Boolean(bool),
    /// A numeric literal, by the bit pattern of its value.
    Number(u64),
    BigInt(String),
    String(String),
    /// A unary minus applied to a numeric literal, by the bit pattern of
    /// the literal's value.
    NegatedNumber(u64),
    /// A template literal, or a unary expression that is not the negation
    /// of a numeric literal.
    Unsupported,
}

/// A type annotation: its source range and source text, and its shape.
#[derive(Debug)]
pub struct TypeNode {
    pub span: TextRange,
    pub text: String,
    pub kind: TypeNodeKind,
}

/// The shape of a type annotation.
#[derive(Debug)]
pub enum TypeNodeKind {
    Keyword(Keyword),
    Literal(LiteralType),
    Union(Vec<TypeNode>),
    Array(Box<TypeNode>),
    /// An object type literal, `{ ... }`.
    TypeLiteral(Vec<TypeMember>),
    /// A type reference: `name` is the referenced identifier (`None` for a
    /// qualified name) and `arguments` its type arguments, if written.
    Reference { name: Option<String>, arguments: Option<Vec<TypeNode>> },
    Parenthesized(Box<TypeNode>),
    Other,
}

/// A member of an object type literal or interface body.
#[derive(Debug)]
pub enum TypeMember {
    Property(PropertySignature),
    Other,
}

/// A property signature: its static name, if it has one.
#[derive(Debug)]
pub struct PropertySignature {
    pub name: Option<String>,
    pub computed: bool,
    pub optional: bool,
    pub annotation: Option<TypeNode>,
}

/// An expression: its source range and its shape.
#[derive(Debug)]
pub struct Expr {
    pub span: TextRange,
    pub kind: ExprKind,
}

/// The shape of an expression.
#[derive(Debug)]
pub enum ExprKind {
    Boolean(bool),
    BigInt(String),
    Null,
    /// A numeric literal, by the bit pattern of its value.
    Number(u64),
    /// A unary minus.
    Negation(Box<Expr>),
    String(String),
    Template,
    /// An identifier reference and the symbol it resolves to.
    Identifier { name: String, symbol: Option<u32> },
    Call(CallExpr),
    Array(Vec<ArrayElement>),
    Object(Vec<ObjectMember>),
    Parenthesized(Box<Expr>),
    Other,
}

/// An element of an array literal: an expression, or a spread or hole.
#[derive(Debug)]
pub enum ArrayElement {
    Expression(Expr),
    Other,
}

/// A call expression.
#[derive(Debug)]
pub struct CallExpr {
    pub callee: Box<Expr>,
    pub optional: bool,
    pub has_type_arguments: bool,
    pub arguments: Vec<Argument>,
}

/// A call argument: its range, and its expression unless it is a spread.
#[derive(Debug)]
pub struct Argument {
    pub span: TextRange,
    pub expression: Option<Expr>,
}

/// A member of an object literal.
#[derive(Debug)]
pub enum ObjectMember {
    Property(ObjectProperty),
    /// A spread member.
    Other,
}

/// A property of an object literal: its key's static name, if it has one.
#[derive(Debug)]
pub struct ObjectProperty {
    pub name: Option<String>,
    pub key_span: TextRange,
    pub computed: bool,
    pub method: bool,
    pub value: Expr,
}

/// What a declaration binds: an identifier with its symbol, or a pattern.
#[derive(Clone, Copy, Debug, PartialEq, Eq, Structural)]
pub enum Binding {
    Identifier(Option<u32>),
    Pattern,
}

/// A variable declarator.
#[derive(Debug)]
pub struct VariableDeclarator {
    pub binding: Binding,
    /// The range of the bound name or pattern.
    pub id_span: TextRange,
    pub annotation: Option<TypeNode>,
    pub init: Option<Expr>,
}

/// A `return` statement.
#[derive(Debug)]
pub struct ReturnStatement {
    pub span: TextRange,
    pub argument: Option<Expr>,
}

/// An identifier on the left of an assignment.
#[derive(Clone, Copy, Debug, PartialEq, Eq, Structural)]
pub struct IdentifierTarget {
    pub symbol: Option<u32>,
    pub span: TextRange,
}

/// An assignment expression: whether it is a plain `=`, its left side when
/// that is an identifier, and its right side.
#[derive(Debug)]
pub struct AssignmentExpression {
    pub plain: bool,
    pub target: Option<IdentifierTarget>,
    pub right: Expr,
}

/// The name of a declaration: its symbol, and whether that symbol is
/// declared only once.
#[derive(Clone, Copy, Debug, PartialEq, Eq, Structural)]
pub struct DeclaredName {
    pub symbol: Option<u32>,
    pub unique: bool,
}

/// A parameter of a function declaration.
#[derive(Debug)]
pub struct Parameter {
    pub optional: bool,
    pub has_initializer: bool,
    pub has_accessibility: bool,
    pub readonly: bool,
    pub is_override: bool,
    pub has_decorators: bool,
    pub binding: Binding,
    pub annotation: Option<TypeNode>,
}

/// A function declaration or expression, as far as its signature goes.
#[derive(Debug)]
pub struct FunctionDeclaration {
    /// Whether it is a function declaration (not an expression).
    pub is_declaration: bool,
    pub generator: bool,
    pub is_async: bool,
    pub declare: bool,
    pub has_type_parameters: bool,
    pub has_this_parameter: bool,
    pub has_rest_parameter: bool,
    pub has_body: bool,
    pub id: Option<DeclaredName>,
    pub parameters: Vec<Parameter>,
    pub return_annotation: Option<TypeNode>,
}

/// An interface declaration.
#[derive(Debug)]
pub struct InterfaceDeclaration {
    pub name: String,
    pub has_type_parameters: bool,
    pub has_extends: bool,
    /// Whether its symbol exists and is declared only once.
    pub unique: bool,
    pub members: Vec<TypeMember>,
}

/// A top-level statement, as far as the checker's first pass reads it:
/// an exported interface or function counts as the declaration itself,
/// while only a type alias statement of its own counts as an alias.
#[derive(Debug)]
pub enum TopLevel {
    Alias { name: String, has_type_parameters: bool, annotation: TypeNode },
    Interface(InterfaceDeclaration),
    Function(FunctionDeclaration),
    Other,
}

} // verus!
