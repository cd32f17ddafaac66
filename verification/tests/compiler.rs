use state_game::compiler::abstract_syntax_tree_generator::{
    BinaryOperator, BlockStatement, ExportDeclaration, Expression, FieldDefinition, Identifier,
    IfAlternative, ImportDeclaration, ImportSource, Literal, Program, Statement, StructDefinition,
    TypeAnnotation, UnaryOperator,
};
use state_game::compiler::parser::{ParseError, Parser};
use state_game::compiler::token::{
    lookup_keyword, same_text, AssignmentToken, KeywordToken, OperatorToken, Position,
    PunctuationToken, SpecialToken, Token,
};
use state_game::compiler::tokenizer::{StringError, Tokenizer};

fn tokens(src: &str) -> Vec<Token> {
    let mut t = Tokenizer::new(src);
    let mut out = Vec::new();
    while let Some((token, _)) = t.next() {
        out.push(token);
    }
    out
}

fn pos(start_line: usize, start_column: usize, end_line: usize, end_column: usize) -> Position {
    Position { start_line, start_column, end_line, end_column }
}

fn parse(src: &str) -> (Program, Vec<ParseError>) {
    let mut p = Parser::new(Tokenizer::new(src));
    let program = p.parse_program();
    let errors = p.errors().to_vec();
    (program, errors)
}

fn ident(name: &str) -> Identifier {
    Identifier { name: name.to_string() }
}

fn id_expr(name: &str) -> Expression {
    Expression::Identifier(ident(name))
}

fn int_lit(s: &str) -> Expression {
    Expression::Literal(Literal::Int(s.to_string()))
}

fn bin(left: Expression, op: BinaryOperator, right: Expression) -> Expression {
    Expression::BinaryOperation { left: Box::new(left), op, right: Box::new(right) }
}

fn simple(name: &str) -> TypeAnnotation {
    TypeAnnotation::Simple(ident(name))
}

#[test]
fn keywords_are_looked_up_exactly() {
    assert_eq!(lookup_keyword("let"), Some(KeywordToken::Let));
    assert_eq!(lookup_keyword("elif"), Some(KeywordToken::Elif));
    assert_eq!(lookup_keyword("impl"), Some(KeywordToken::Impl));
    assert_eq!(lookup_keyword("null"), Some(KeywordToken::Null));
    assert_eq!(lookup_keyword("Let"), None);
    assert_eq!(lookup_keyword("lets"), None);
    assert_eq!(lookup_keyword(""), None);
    assert_eq!(lookup_keyword("in"), None);
}

#[test]
fn keyword_text_round_trips() {
    let all = [
        KeywordToken::Let, KeywordToken::Fn, KeywordToken::If, KeywordToken::Elif,
        KeywordToken::Else, KeywordToken::For, KeywordToken::While, KeywordToken::Return,
        KeywordToken::Import, KeywordToken::From, KeywordToken::As, KeywordToken::Struct,
        KeywordToken::True, KeywordToken::False, KeywordToken::Null, KeywordToken::Break,
        KeywordToken::Export, KeywordToken::Impl,
    ];
    for k in all {
        assert_eq!(lookup_keyword(&k.to_string()), Some(k));
    }
}

#[test]
fn token_texts() {
    assert_eq!(OperatorToken::NotEqual.to_string(), "!=");
    assert_eq!(OperatorToken::And.to_string(), "&&");
    assert_eq!(AssignmentToken::Assign.to_string(), "=");
    assert_eq!(PunctuationToken::Arrow.to_string(), "->");
    assert_eq!(PunctuationToken::Semicolon.to_string(), ";");
    assert_eq!(KeywordToken::Return.to_string(), "return");
    assert_eq!(SpecialToken::Eof.to_string(), "EOF");
    assert_eq!(SpecialToken::Illegal.to_string(), "Illegal");
}

#[test]
fn token_constructors() {
    assert_eq!(Token::identifier("x"), Token::Identifier("x".to_string()));
    assert_eq!(Token::integer(String::from("42")), Token::Int("42".to_string()));
    assert_eq!(Token::float("1.5"), Token::Float("1.5".to_string()));
    assert_eq!(Token::string("hi"), Token::String("hi".to_string()));
}

#[test]
fn same_text_compares_characters() {
    assert!(same_text("abc", "abc"));
    assert!(!same_text("abc", "abd"));
    assert!(!same_text("ab", "abc"));
    assert!(same_text("", ""));
}

#[test]
fn tokenizer_positions_of_a_let() {
    let mut t = Tokenizer::new("let x = 42;");
    assert_eq!(t.next_token(), (Token::Keyword(KeywordToken::Let), pos(1, 1, 1, 4)));
    assert_eq!(t.next_token(), (Token::Identifier("x".to_string()), pos(1, 5, 1, 6)));
    assert_eq!(t.next_token(), (Token::Assignment(AssignmentToken::Assign), pos(1, 7, 1, 8)));
    assert_eq!(t.next_token(), (Token::Int("42".to_string()), pos(1, 9, 1, 11)));
    assert_eq!(t.next_token(), (Token::Punctuation(PunctuationToken::Semicolon), pos(1, 11, 1, 12)));
    assert_eq!(t.next_token(), (Token::Special(SpecialToken::Eof), pos(1, 12, 1, 12)));
    assert_eq!(t.next_token(), (Token::Special(SpecialToken::Eof), pos(1, 12, 1, 12)));
}

#[test]
fn tokenizer_iterator_stops_at_end() {
    let mut t = Tokenizer::new("  ");
    assert_eq!(t.next(), None);
    let mut t = Tokenizer::new("a");
    assert_eq!(t.next(), Some((Token::Identifier("a".to_string()), pos(1, 1, 1, 2))));
    assert_eq!(t.next(), None);
}

#[test]
fn tokenizer_operators() {
    assert_eq!(
        tokens("+ - * / % == != < > <= >= && || ! = ->"),
        vec![
            Token::Operator(OperatorToken::Plus),
            Token::Operator(OperatorToken::Minus),
            Token::Operator(OperatorToken::Multiply),
            Token::Operator(OperatorToken::Divide),
            Token::Operator(OperatorToken::Modulo),
            Token::Operator(OperatorToken::Equal),
            Token::Operator(OperatorToken::NotEqual),
            Token::Operator(OperatorToken::LessThan),
            Token::Operator(OperatorToken::GreaterThan),
            Token::Operator(OperatorToken::LessEqual),
            Token::Operator(OperatorToken::GreaterEqual),
            Token::Operator(OperatorToken::And),
            Token::Operator(OperatorToken::Or),
            Token::Operator(OperatorToken::Not),
            Token::Assignment(AssignmentToken::Assign),
            Token::Punctuation(PunctuationToken::Arrow),
        ]
    );
}

#[test]
fn tokenizer_punctuation_and_illegal() {
    assert_eq!(
        tokens("(){}[],.:;& | @"),
        vec![
            Token::Punctuation(PunctuationToken::LeftParen),
            Token::Punctuation(PunctuationToken::RightParen),
            Token::Punctuation(PunctuationToken::LeftBrace),
            Token::Punctuation(PunctuationToken::RightBrace),
            Token::Punctuation(PunctuationToken::LeftBracket),
            Token::Punctuation(PunctuationToken::RightBracket),
            Token::Punctuation(PunctuationToken::Comma),
            Token::Punctuation(PunctuationToken::Dot),
            Token::Punctuation(PunctuationToken::Colon),
            Token::Punctuation(PunctuationToken::Semicolon),
            Token::Special(SpecialToken::Illegal),
            Token::Special(SpecialToken::Illegal),
            Token::Special(SpecialToken::Illegal),
        ]
    );
}

#[test]
fn tokenizer_numbers() {
    assert_eq!(tokens("3.14"), vec![Token::Float("3.14".to_string())]);
    assert_eq!(
        tokens("3."),
        vec![Token::Int("3".to_string()), Token::Punctuation(PunctuationToken::Dot)]
    );
    assert_eq!(
        tokens("3.x"),
        vec![
            Token::Int("3".to_string()),
            Token::Punctuation(PunctuationToken::Dot),
            Token::Identifier("x".to_string()),
        ]
    );
    assert_eq!(
        tokens("1.2.3"),
        vec![
            Token::Float("1.2".to_string()),
            Token::Punctuation(PunctuationToken::Dot),
            Token::Int("3".to_string()),
        ]
    );
    assert_eq!(tokens("007"), vec![Token::Int("007".to_string())]);
}

#[test]
fn tokenizer_identifiers_and_keywords() {
    assert_eq!(
        tokens("_foo1 bar_2 while héllo"),
        vec![
            Token::Identifier("_foo1".to_string()),
            Token::Identifier("bar_2".to_string()),
            Token::Keyword(KeywordToken::While),
            Token::Identifier("héllo".to_string()),
        ]
    );
    let mut t = Tokenizer::new("héllo x");
    assert_eq!(t.next_token().1, pos(1, 1, 1, 6));
    assert_eq!(t.next_token().1, pos(1, 7, 1, 8));
}

#[test]
fn tokenizer_skips_comments() {
    let mut t = Tokenizer::new("a // note\nb");
    assert_eq!(t.next_token(), (Token::Identifier("a".to_string()), pos(1, 1, 1, 2)));
    assert_eq!(t.next_token(), (Token::Identifier("b".to_string()), pos(2, 1, 2, 2)));
    let mut t = Tokenizer::new("/* a /* b */ c */x");
    assert_eq!(t.next_token(), (Token::Identifier("x".to_string()), pos(1, 18, 1, 19)));
    assert_eq!(tokens("/* never closed"), vec![]);
    assert_eq!(tokens("a / b"), vec![
        Token::Identifier("a".to_string()),
        Token::Operator(OperatorToken::Divide),
        Token::Identifier("b".to_string()),
    ]);
}

#[test]
fn tokenizer_strings() {
    let mut t = Tokenizer::new("\"a\\nb\"");
    assert_eq!(t.next_token(), (Token::String("a\nb".to_string()), pos(1, 1, 1, 7)));
    assert_eq!(tokens("'it\\'s'"), vec![Token::String("it's".to_string())]);
    assert_eq!(tokens("\"\\t\\r\\\\\\\"\\`\""), vec![Token::String("\t\r\\\"`".to_string())]);
    let mut t = Tokenizer::new("`a\nb` c");
    assert_eq!(t.next_token(), (Token::String("a\nb".to_string()), pos(1, 1, 2, 3)));
    assert_eq!(t.next_token(), (Token::Identifier("c".to_string()), pos(2, 4, 2, 5)));
}

#[test]
fn tokenizer_bad_strings_are_illegal() {
    let mut t = Tokenizer::new("\"\\q\"");
    assert_eq!(t.next_token().0, Token::Special(SpecialToken::Illegal));
    let mut t = Tokenizer::new("'ab\ncd'");
    assert_eq!(t.next_token(), (Token::Special(SpecialToken::Illegal), pos(1, 1, 2, 1)));
    assert_eq!(tokens("\"open"), vec![Token::Special(SpecialToken::Illegal)]);
    assert_eq!(tokens("\"end\\"), vec![Token::Special(SpecialToken::Illegal)]);
}

#[test]
fn parse_let_with_precedence() {
    let (program, errors) = parse("let x: int = 1 + 2 * 3;");
    assert!(errors.is_empty());
    assert_eq!(
        program.statements,
        vec![Statement::LetDeclaration {
            name: ident("x"),
            type_annotation: Some(simple("int")),
            initializer: Some(bin(
                int_lit("1"),
                BinaryOperator::Add,
                bin(int_lit("2"), BinaryOperator::Multiply, int_lit("3")),
            )),
        }]
    );
}

#[test]
fn parse_binary_operators_are_left_associative() {
    let (program, errors) = parse("a - b - c");
    assert!(errors.is_empty());
    assert_eq!(
        program.statements,
        vec![Statement::ExpressionStatement(bin(
            bin(id_expr("a"), BinaryOperator::Subtract, id_expr("b")),
            BinaryOperator::Subtract,
            id_expr("c"),
        ))]
    );
}

#[test]
fn parse_logic_and_comparison() {
    let (program, errors) = parse("a < b && c == d || e");
    assert!(errors.is_empty());
    let and = bin(
        bin(id_expr("a"), BinaryOperator::LessThan, id_expr("b")),
        BinaryOperator::And,
        bin(id_expr("c"), BinaryOperator::Equal, id_expr("d")),
    );
    assert_eq!(
        program.statements,
        vec![Statement::ExpressionStatement(bin(and, BinaryOperator::Or, id_expr("e")))]
    );
}

#[test]
fn parse_unary_binds_tighter() {
    let (program, errors) = parse("-a * !b;");
    assert!(errors.is_empty());
    assert_eq!(
        program.statements,
        vec![Statement::ExpressionStatement(bin(
            Expression::UnaryOperation { op: UnaryOperator::Negate, operand: Box::new(id_expr("a")) },
            BinaryOperator::Multiply,
            Expression::UnaryOperation { op: UnaryOperator::Not, operand: Box::new(id_expr("b")) },
        ))]
    );
}

#[test]
fn parse_assignment_chain() {
    let (program, errors) = parse("x = y = 3;");
    assert!(errors.is_empty());
    assert_eq!(
        program.statements,
        vec![Statement::ExpressionStatement(Expression::Assignment {
            target: Box::new(id_expr("x")),
            value: Box::new(Expression::Assignment {
                target: Box::new(id_expr("y")),
                value: Box::new(int_lit("3")),
            }),
        })]
    );
}

#[test]
fn parse_postfix_chain() {
    let (program, errors) = parse("foo.bar(1, 2,)[0]");
    assert!(errors.is_empty());
    let member = Expression::MemberAccess { base: Box::new(id_expr("foo")), member: ident("bar") };
    let call = Expression::FunctionCall {
        callee: Box::new(member),
        arguments: vec![int_lit("1"), int_lit("2")],
    };
    assert_eq!(
        program.statements,
        vec![Statement::ExpressionStatement(Expression::IndexAccess {
            base: Box::new(call),
            index: Box::new(int_lit("0")),
        })]
    );
}

#[test]
fn parse_literals_and_collections() {
    let (program, errors) =
        parse("let l = [1, 2.5, \"s\", true, false, null,]; let d = {\"a\": 1}; let p = Point { x: 1, y: (2) };");
    assert!(errors.is_empty());
    assert_eq!(
        program.statements,
        vec![
            Statement::LetDeclaration {
                name: ident("l"),
                type_annotation: None,
                initializer: Some(Expression::ListInitializer {
                    items: vec![
                        int_lit("1"),
                        Expression::Literal(Literal::Float("2.5".to_string())),
                        Expression::Literal(Literal::String("s".to_string())),
                        Expression::Literal(Literal::Boolean(true)),
                        Expression::Literal(Literal::Boolean(false)),
                        Expression::Literal(Literal::Null),
                    ],
                }),
            },
            Statement::LetDeclaration {
                name: ident("d"),
                type_annotation: None,
                initializer: Some(Expression::DictInitializer {
                    pairs: vec![(Expression::Literal(Literal::String("a".to_string())), int_lit("1"))],
                }),
            },
            Statement::LetDeclaration {
                name: ident("p"),
                type_annotation: None,
                initializer: Some(Expression::StructInitializer {
                    name: ident("Point"),
                    fields: vec![(ident("x"), int_lit("1")), (ident("y"), int_lit("2"))],
                }),
            },
        ]
    );
}

#[test]
fn parse_function_declaration() {
    let (program, errors) = parse("fn add(a: int, b) -> List<int, T> { return a + b; }");
    assert!(errors.is_empty());
    assert_eq!(
        program.statements,
        vec![Statement::FunctionDeclaration {
            name: ident("add"),
            parameters: vec![(ident("a"), Some(simple("int"))), (ident("b"), None)],
            return_type: Some(TypeAnnotation::Generic {
                base: ident("List"),
                arguments: vec![simple("int"), simple("T")],
            }),
            body: BlockStatement {
                statements: vec![Statement::ReturnStatement {
                    value: Some(bin(id_expr("a"), BinaryOperator::Add, id_expr("b"))),
                }],
            },
        }]
    );
    let (program, errors) = parse("fn f() -> void { return; }");
    assert!(errors.is_empty());
    assert_eq!(
        program.statements,
        vec![Statement::FunctionDeclaration {
            name: ident("f"),
            parameters: vec![],
            return_type: Some(TypeAnnotation::Void),
            body: BlockStatement { statements: vec![Statement::ReturnStatement { value: None }] },
        }]
    );
}

#[test]
fn parse_if_elif_else() {
    let (program, errors) = parse("if (a) { x; } elif (b) { y; } else { z; }");
    assert!(errors.is_empty());
    let block = |n: &str| BlockStatement { statements: vec![Statement::ExpressionStatement(id_expr(n))] };
    assert_eq!(
        program.statements,
        vec![Statement::IfStatement {
            condition: id_expr("a"),
            consequence: block("x"),
            alternative: Some(IfAlternative::Elif {
                condition: id_expr("b"),
                consequence: block("y"),
                alternative: Some(Box::new(IfAlternative::Else { consequence: block("z") })),
            }),
        }]
    );
}

#[test]
fn parse_loops() {
    let (program, errors) = parse("while (i < 3) { i = i + 1; break; } for v in [1] { }");
    assert!(errors.is_empty());
    assert_eq!(
        program.statements,
        vec![
            Statement::WhileStatement {
                condition: bin(id_expr("i"), BinaryOperator::LessThan, int_lit("3")),
                body: BlockStatement {
                    statements: vec![
                        Statement::ExpressionStatement(Expression::Assignment {
                            target: Box::new(id_expr("i")),
                            value: Box::new(bin(id_expr("i"), BinaryOperator::Add, int_lit("1"))),
                        }),
                        Statement::BreakStatement,
                    ],
                },
            },
            Statement::ForStatement {
                variable: ident("v"),
                iterable: Expression::ListInitializer { items: vec![int_lit("1")] },
                body: BlockStatement { statements: vec![] },
            },
        ]
    );
}

#[test]
fn parse_for_needs_in() {
    let (program, errors) = parse("for v of x {}");
    assert!(program.statements.is_empty());
    assert_eq!(
        errors,
        vec![ParseError::UnexpectedToken(
            "Identifier(\"of\")".to_string(),
            "Expected 'in'".to_string(),
            pos(1, 7, 1, 9),
        )]
    );
}

#[test]
fn parse_struct_import_export_impl() {
    let src = "struct P { x: int, y: List<int> } import \"m\" as q; from std import a as b, c; \
               from \"f\" import d export x; impl P { fn get(self) -> int { return 1; } }";
    let (program, errors) = parse(src);
    assert!(errors.is_empty());
    assert_eq!(program.statements.len(), 6);
    assert_eq!(
        program.statements[0],
        Statement::StructDeclaration(StructDefinition {
            name: ident("P"),
            fields: vec![
                FieldDefinition { name: ident("x"), type_annotation: simple("int") },
                FieldDefinition {
                    name: ident("y"),
                    type_annotation: TypeAnnotation::Generic { base: ident("List"), arguments: vec![simple("int")] },
                },
            ],
            methods: vec![],
        })
    );
    assert_eq!(
        program.statements[1],
        Statement::ImportStatement(ImportDeclaration::ImportModule { path: "m".to_string(), alias: Some(ident("q")) })
    );
    assert_eq!(
        program.statements[2],
        Statement::ImportStatement(ImportDeclaration::ImportSymbols {
            source: ImportSource::Std,
            symbols: vec![(ident("a"), Some(ident("b"))), (ident("c"), None)],
        })
    );
    assert_eq!(
        program.statements[3],
        Statement::ImportStatement(ImportDeclaration::ImportSymbols {
            source: ImportSource::File("f".to_string()),
            symbols: vec![(ident("d"), None)],
        })
    );
    assert_eq!(program.statements[4], Statement::ExportStatement(ExportDeclaration::Identifier(ident("x"))));
    match &program.statements[5] {
        Statement::ImplBlock { struct_name, methods } => {
            assert_eq!(*struct_name, ident("P"));
            assert_eq!(methods.len(), 1);
            assert_eq!(methods[0].name, ident("get"));
            assert_eq!(methods[0].parameters, vec![(ident("self"), None)]);
            assert_eq!(methods[0].return_type, Some(simple("int")));
        }
        other => panic!("unexpected statement {:?}", other),
    }
}

#[test]
fn parse_empty_statements() {
    let (program, errors) = parse(";;");
    assert!(errors.is_empty());
    assert_eq!(
        program.statements,
        vec![
            Statement::ExpressionStatement(Expression::Literal(Literal::Null)),
            Statement::ExpressionStatement(Expression::Literal(Literal::Null)),
        ]
    );
    let (program, errors) = parse("");
    assert!(errors.is_empty() && program.statements.is_empty());
}

#[test]
fn parse_stops_at_first_error() {
    let (program, errors) = parse("let = 5; let y = 1;");
    assert!(program.statements.is_empty());
    assert_eq!(
        errors,
        vec![ParseError::UnexpectedToken(
            "Assignment(Assign)".to_string(),
            "Expected identifier".to_string(),
            pos(1, 5, 1, 6),
        )]
    );
    let (program, errors) = parse("let a = 1; let x = (1 + 2");
    assert_eq!(program.statements.len(), 1);
    assert_eq!(
        errors,
        vec![ParseError::UnexpectedEof("Expected ')' after grouped expression".to_string(), pos(1, 25, 1, 26))]
    );
}

#[test]
fn parse_rejects_standalone_block() {
    let (program, errors) = parse("x; { }");
    assert_eq!(program.statements, vec![Statement::ExpressionStatement(id_expr("x"))]);
    assert_eq!(
        errors,
        vec![ParseError::UnexpectedToken(
            "Punctuation(LeftBrace)".to_string(),
            "Expected statement start KeywordToken or expression".to_string(),
            pos(1, 2, 1, 3),
        )]
    );
}

#[test]
fn parse_struct_body_recovers() {
    let (program, errors) = parse("struct S { fn m { } x: int }");
    assert_eq!(
        program.statements,
        vec![Statement::StructDeclaration(StructDefinition {
            name: ident("S"),
            fields: vec![FieldDefinition { name: ident("x"), type_annotation: simple("int") }],
            methods: vec![],
        })]
    );
    assert_eq!(
        errors,
        vec![ParseError::Other("Method parsing within struct not implemented yet.".to_string(), pos(1, 10, 1, 11))]
    );
}

#[test]
fn parse_bad_prefix() {
    let (program, errors) = parse("let x = ];");
    assert!(program.statements.is_empty());
    assert_eq!(
        errors,
        vec![ParseError::UnexpectedToken(
            "Punctuation(RightBracket)".to_string(),
            "Expected literal, identifier, '(', '-', '!', '[', or '{'".to_string(),
            pos(1, 7, 1, 8),
        )]
    );
}

#[test]
fn parse_not_in_infix_position_is_an_error() {
    let (program, errors) = parse("a ! b");
    assert!(program.statements.is_empty());
    assert_eq!(errors.len(), 1);
    assert!(matches!(errors[0], ParseError::Other(_, _)));
}

#[test]
fn parse_errors_show_the_peeked_token() {
    let (_, errors) = parse("from 5 import x");
    assert_eq!(
        errors,
        vec![ParseError::UnexpectedToken(
            "Some(Int(\"5\"))".to_string(),
            "Expected module path (string literal) or 'std' after 'from'".to_string(),
            pos(1, 1, 1, 5),
        )]
    );
    let (_, errors) = parse("impl P { x }");
    assert_eq!(
        errors,
        vec![ParseError::UnexpectedToken(
            "Some(Identifier(\"x\"))".to_string(),
            "Expected 'fn' for method definition inside impl block".to_string(),
            pos(1, 8, 1, 9),
        )]
    );
}

#[test]
fn failed_string_literal_reports_why() {
    use_string_error_check();
}

fn use_string_error_check() {
    let mut t = Tokenizer::new("\"a\\qb\" x");
    let (tok, _) = t.next_token();
    assert_eq!(tok, Token::Special(SpecialToken::Illegal));
    assert_eq!(t.last_string_error(), Some(StringError::InvalidEscape('q')));
    let (tok, _) = t.next_token();
    assert_eq!(tok, Token::Identifier("b".to_string()));
    assert_eq!(t.last_string_error(), None);
    let mut t = Tokenizer::new("'open");
    let (tok, _) = t.next_token();
    assert_eq!(tok, Token::Special(SpecialToken::Illegal));
    assert_eq!(t.last_string_error(), Some(StringError::Eof));
}

#[test]
fn unclosed_block_comment_is_reported() {
    let mut t = Tokenizer::new("a /* open /* nested */ still open");
    let (tok, _) = t.next_token();
    assert_eq!(tok, Token::Identifier("a".to_string()));
    assert!(!t.last_comment_unclosed());
    let (tok, _) = t.next_token();
    assert_eq!(tok, Token::Special(SpecialToken::Eof));
    assert!(t.last_comment_unclosed());
    let mut t = Tokenizer::new("/* closed */ b");
    let (tok, _) = t.next_token();
    assert_eq!(tok, Token::Identifier("b".to_string()));
    assert!(!t.last_comment_unclosed());
}
