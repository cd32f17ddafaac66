//! The syntax tree of the game script.

use vstd::prelude::*;

verus! {

/// A name: of a variable, a function, a field or a type.
#[derive(Debug, PartialEq, Eq, Clone, Hash)]
pub struct Identifier {
    pub name: String,
}

/// A type annotation such as `: int`, `: List<int>`.
#[derive(Debug, PartialEq)]
pub enum TypeAnnotation {
    Simple(Identifier),
    Generic { base: Identifier, arguments: Vec<TypeAnnotation> },
    /// The explicit `void` return type.
    Void,
}

#[derive(Debug, PartialEq, Eq, Clone, Copy, Hash, Structural)]
pub enum BinaryOperator {
    Add,
    Subtract,
    Multiply,
    Divide,
    Modulo,
    Equal,
    NotEqual,
    LessThan,
    GreaterThan,
    LessEqual,
    GreaterEqual,
    And,
    Or,
}

#[derive(Debug, PartialEq, Eq, Clone, Copy, Hash, Structural)]
pub enum UnaryOperator {
    Not,
    Negate,
}

/// A literal, kept as written.
#[derive(Debug, PartialEq, Clone)]
pub enum Literal {
    Int(String),
    Float(String),
    String(String),
    Boolean(bool),
    Null,
}

#[derive(Debug, PartialEq)]
pub enum Expression {
    Literal(Literal),
    Identifier(Identifier),
    BinaryOperation { left: Box<Expression>, op: BinaryOperator, right: Box<Expression> },
    UnaryOperation { op: UnaryOperator, operand: Box<Expression> },
    /// The callee is an identifier or a member access.
    FunctionCall { callee: Box<Expression>, arguments: Vec<Expression> },
    ListInitializer { items: Vec<Expression> },
    DictInitializer { pairs: Vec<(Expression, Expression)> },
    IndexAccess { base: Box<Expression>, index: Box<Expression> },
    MemberAccess { base: Box<Expression>, member: Identifier },
    /// The target is an identifier, a member access or an index access.
    Assignment { target: Box<Expression>, value: Box<Expression> },
    StructInitializer { name: Identifier, fields: Vec<(Identifier, Expression)> },
}

#[derive(Debug, PartialEq)]
pub enum ImportDeclaration {
    /// `import "path" [as alias]`.
    ImportModule { path: String, alias: Option<Identifier> },
    /// `from <source> import name [as alias], ...`.
    ImportSymbols { source: ImportSource, symbols: Vec<(Identifier, Option<Identifier>)> },
}

/// Where imported symbols come from.
#[derive(Debug, PartialEq, Clone)]
pub enum ImportSource {
    File(String),
    Std,
}

#[derive(Debug, PartialEq, Clone)]
pub enum ExportDeclaration {
    /// `export <name>;`
    Identifier(Identifier),
}

/// The body of a function, a loop, an `if` branch.
#[derive(Debug, PartialEq)]
pub struct BlockStatement {
    pub statements: Vec<Statement>,
}

/// The `elif` and `else` branches of an `if`.
#[derive(Debug, PartialEq)]
pub enum IfAlternative {
    Elif { condition: Expression, consequence: BlockStatement, alternative: Option<Box<IfAlternative>> },
    Else { consequence: BlockStatement },
}

#[derive(Debug, PartialEq)]
pub struct FieldDefinition {
    pub name: Identifier,
    pub type_annotation: TypeAnnotation,
}

#[derive(Debug, PartialEq)]
pub struct MethodDefinition {
    pub name: Identifier,
    pub parameters: Vec<(Identifier, Option<TypeAnnotation>)>,
    pub return_type: Option<TypeAnnotation>,
    pub body: BlockStatement,
}

#[derive(Debug, PartialEq)]
pub struct StructDefinition {
    pub name: Identifier,
    pub fields: Vec<FieldDefinition>,
    pub methods: Vec<MethodDefinition>,
}

/// A method inside an `impl` block; its parameters include `self` if present.
#[derive(Debug, PartialEq)]
pub struct ImplMethodDefinition {
    pub name: Identifier,
    pub parameters: Vec<(Identifier, Option<TypeAnnotation>)>,
    pub return_type: Option<TypeAnnotation>,
    pub body: BlockStatement,
}

#[derive(Debug, PartialEq)]
pub enum Statement {
    LetDeclaration { name: Identifier, type_annotation: Option<TypeAnnotation>, initializer: Option<Expression> },
    FunctionDeclaration {
        name: Identifier,
        parameters: Vec<(Identifier, Option<TypeAnnotation>)>,
        return_type: Option<TypeAnnotation>,
        body: BlockStatement,
    },
    StructDeclaration(StructDefinition),
    IfStatement { condition: Expression, consequence: BlockStatement, alternative: Option<IfAlternative> },
    ForStatement { variable: Identifier, iterable: Expression, body: BlockStatement },
    WhileStatement { condition: Expression, body: BlockStatement },
    ReturnStatement { value: Option<Expression> },
    /// An expression used as a statement, such as a call.
    ExpressionStatement(Expression),
    ImportStatement(ImportDeclaration),
    BreakStatement,
    ExportStatement(ExportDeclaration),
    ImplBlock { struct_name: Identifier, methods: Vec<ImplMethodDefinition> },
}

/// A whole program: its statements in order.
#[derive(Debug, PartialEq)]
pub struct Program {
    pub statements: Vec<Statement>,
}

} // verus!
