//! The parser: a recursive descent over the tokens of a source text that
//! builds a `Program`. It stops at the first error of a statement and records
//! it; inside a struct body it records the error and goes on.

use vstd::prelude::*;
use crate::compiler::abstract_syntax_tree_generator::{
    BinaryOperator, BlockStatement, ExportDeclaration, Expression, FieldDefinition, Identifier,
    IfAlternative, ImplMethodDefinition, ImportDeclaration, ImportSource, Literal, MethodDefinition,
    Program, Statement, StructDefinition, TypeAnnotation, UnaryOperator,
};
use crate::compiler::token::{
    same_text, AssignmentToken, KeywordToken, OperatorToken, Position, PunctuationToken,
    SpecialToken, Token,
};
use crate::compiler::tokenizer::{skip_end, token_position, tokenizes, Tokenizer};

verus! {

#[derive(Debug, Clone, PartialEq)]
pub enum ParseError {
    /// The token found (as debug text), what was expected, and where.
    UnexpectedToken(String, String, Position),
    /// What was expected at the end of the input, and where.
    UnexpectedEof(String, Position),
    /// Any other error, and where it occurred (best guess).
    Other(String, Position),
}

/// The debug text of a token (`{:?}`).
pub uninterp spec fn token_debug(t: Token) -> Seq<char>;

/// The debug text of an optional token (`{:?}`): `None`, or `Some(..)`
/// around the token's debug text.
pub open spec fn peeked_debug(t: Option<Token>) -> Seq<char> {
    match t {
        Some(x) => "Some("@ + token_debug(x) + ")"@,
        None => "None"@,
    }
}

/// The text `Unexpected token <t> in infix/postfix position after precedence check`.
pub open spec fn infix_error_text(t: Token) -> Seq<char> {
    "Unexpected token "@ + token_debug(t) + " in infix/postfix position after precedence check"@
}

/// Formats a token with `{:?}`.
#[verifier::external_body]
fn debug_token(t: &Token) -> (r: String)
    ensures
        r@ == token_debug(*t),
{
    format!("{:?}", t)
}

/// Formats an optional token with `{:?}`.
#[verifier::external_body]
fn debug_peeked(t: Option<&Token>) -> (r: String)
    ensures
        r@ == peeked_debug(match t { Some(x) => Some(*x), None => None }),
{
    format!("{:?}", t)
}

/// Formats the message of a token left over after the precedence check.
#[verifier::external_body]
fn infix_error_message(t: &Token) -> (r: String)
    ensures
        r@ == infix_error_text(*t),
{
    format!("Unexpected token {:?} in infix/postfix position after precedence check", t)
}

/// Tokens without text: their equality is decided by their kind.
pub open spec fn is_plain(t: Token) -> bool {
    !(t is Int || t is Float || t is String || t is Identifier)
}

/// Whether `a` is the plain token `b`.
fn same_token(a: &Token, b: &Token) -> (r: bool)
    requires
        is_plain(*b),
    ensures
        r == (*a == *b),
{
    match (a, b) {
        (Token::Operator(x), Token::Operator(y)) => *x == *y,
        (Token::Assignment(x), Token::Assignment(y)) => *x == *y,
        (Token::Punctuation(x), Token::Punctuation(y)) => *x == *y,
        (Token::Keyword(x), Token::Keyword(y)) => *x == *y,
        (Token::Special(x), Token::Special(y)) => *x == *y,
        _ => false,
    }
}

// ── Precedence ───────────────────────────────────────────────────────────────

/// Binding strength, weakest first.
#[derive(Debug, Clone, Copy, PartialEq, Eq, Structural)]
pub enum Precedence {
    Lowest,
    Assign,
    LogicalOr,
    LogicalAnd,
    Equality,
    Comparison,
    Term,
    Factor,
    Unary,
    Call,
}

pub open spec fn strength(p: Precedence) -> int {
    match p {
        Precedence::Lowest => 0,
        Precedence::Assign => 1,
        Precedence::LogicalOr => 2,
        Precedence::LogicalAnd => 3,
        Precedence::Equality => 4,
        Precedence::Comparison => 5,
        Precedence::Term => 6,
        Precedence::Factor => 7,
        Precedence::Unary => 8,
        Precedence::Call => 9,
    }
}

/// `a` binds at least as strongly as `b`.
fn at_least(a: Precedence, b: Precedence) -> (r: bool)
    ensures
        r == (strength(a) >= strength(b)),
{
    let x: u8 = match a {
        Precedence::Lowest => 0,
        Precedence::Assign => 1,
        Precedence::LogicalOr => 2,
        Precedence::LogicalAnd => 3,
        Precedence::Equality => 4,
        Precedence::Comparison => 5,
        Precedence::Term => 6,
        Precedence::Factor => 7,
        Precedence::Unary => 8,
        Precedence::Call => 9,
    };
    let y: u8 = match b {
        Precedence::Lowest => 0,
        Precedence::Assign => 1,
        Precedence::LogicalOr => 2,
        Precedence::LogicalAnd => 3,
        Precedence::Equality => 4,
        Precedence::Comparison => 5,
        Precedence::Term => 6,
        Precedence::Factor => 7,
        Precedence::Unary => 8,
        Precedence::Call => 9,
    };
    x >= y
}

pub open spec fn operator_precedence(op: OperatorToken) -> Precedence {
    match op {
        OperatorToken::Equal | OperatorToken::NotEqual => Precedence::Equality,
        OperatorToken::LessThan | OperatorToken::GreaterThan | OperatorToken::LessEqual
        | OperatorToken::GreaterEqual => Precedence::Comparison,
        OperatorToken::Plus | OperatorToken::Minus => Precedence::Term,
        OperatorToken::Multiply | OperatorToken::Divide | OperatorToken::Modulo => Precedence::Factor,
        OperatorToken::And => Precedence::LogicalAnd,
        OperatorToken::Or => Precedence::LogicalOr,
        OperatorToken::Not => Precedence::Unary,
    }
}

pub open spec fn token_precedence(t: Token) -> Precedence {
    match t {
        Token::Operator(op) => operator_precedence(op),
        Token::Punctuation(PunctuationToken::LeftParen) => Precedence::Call,
        Token::Punctuation(PunctuationToken::Dot) => Precedence::Call,
        Token::Punctuation(PunctuationToken::LeftBracket) => Precedence::Call,
        Token::Assignment(AssignmentToken::Assign) => Precedence::Assign,
        _ => Precedence::Lowest,
    }
}

/// How strongly an operator binds.
fn get_token_precedence(op: &OperatorToken) -> (r: Precedence)
    ensures
        r == operator_precedence(*op),
{
    match op {
        OperatorToken::Equal | OperatorToken::NotEqual => Precedence::Equality,
        OperatorToken::LessThan | OperatorToken::GreaterThan | OperatorToken::LessEqual
        | OperatorToken::GreaterEqual => Precedence::Comparison,
        OperatorToken::Plus | OperatorToken::Minus => Precedence::Term,
        OperatorToken::Multiply | OperatorToken::Divide | OperatorToken::Modulo => Precedence::Factor,
        OperatorToken::And => Precedence::LogicalAnd,
        OperatorToken::Or => Precedence::LogicalOr,
        OperatorToken::Not => Precedence::Unary,
    }
}

/// How strongly a token binds in infix or postfix position.
fn get_peeked_token_precedence(token: &Token) -> (r: Precedence)
    ensures
        r == token_precedence(*token),
{
    match token {
        Token::Operator(op) => get_token_precedence(op),
        Token::Punctuation(PunctuationToken::LeftParen) => Precedence::Call,
        Token::Punctuation(PunctuationToken::Dot) => Precedence::Call,
        Token::Punctuation(PunctuationToken::LeftBracket) => Precedence::Call,
        Token::Assignment(AssignmentToken::Assign) => Precedence::Assign,
        _ => Precedence::Lowest,
    }
}

// ── The parser and its token stream ─────────────────────────────────────────

/// Parses the tokens of one source text.
pub struct Parser {
    tokens: Vec<(Token, Position)>,
    index: usize,
    /// The position of the last token read, for error reports.
    last_pos: Position,
    errors: Vec<ParseError>,
}

/// The parser only moved forward in the same stream, and only added errors.
pub open spec fn moved_on(a: Parser, b: Parser) -> bool {
    &&& b.wf()
    &&& b.stream() == a.stream()
    &&& a.at() <= b.at() <= b.stream().len()
    &&& b.recorded().len() >= a.recorded().len()
    &&& forall|i: int| 0 <= i < a.recorded().len() ==> #[trigger] b.recorded()[i] == a.recorded()[i]
}

impl Parser {
    /// The read position is within the stream, which holds no end token.
    pub closed spec fn wf(&self) -> bool {
        &&& self.index <= self.tokens@.len()
        &&& forall|i: int| 0 <= i < self.tokens@.len() ==> !(self.tokens@[i].0 == Token::Special(SpecialToken::Eof))
    }

    /// The tokens with their positions.
    pub closed spec fn stream(&self) -> Seq<(Token, Position)> {
        self.tokens@
    }

    /// How many tokens have been read.
    pub closed spec fn at(&self) -> nat {
        self.index as nat
    }

    /// The errors recorded so far.
    pub closed spec fn recorded(&self) -> Seq<ParseError> {
        self.errors@
    }

    /// How many tokens are left.
    pub closed spec fn remaining(&self) -> nat {
        (self.tokens@.len() - self.index) as nat
    }

    /// The next token, if any.
    pub closed spec fn upcoming(&self) -> Option<Token> {
        if self.index < self.tokens@.len() {
            Some(self.tokens@[self.index as int].0)
        } else {
            None
        }
    }

    /// A parser over the tokens that remain in the tokenizer's text, from
    /// the first of them.
    pub fn new(tokenizer: Tokenizer) -> (r: Self)
        ensures
            r.wf(),
            r.at() == 0,
            r.recorded() == Seq::<ParseError>::empty(),
            tokenizes(tokenizer.text(), tokenizer.offset() as int, r.stream()),
            forall|i: int| 0 <= i < r.stream().len() ==> !(r.stream()[i].0 == Token::Special(SpecialToken::Eof)),
    {
        let ghost text = tokenizer.text();
        let ghost start = tokenizer.offset() as int;
        let mut tokenizer = tokenizer;
        let mut tokens: Vec<(Token, Position)> = Vec::new();
        loop
            invariant_except_break
                forall|rest: Seq<(Token, Position)>| #[trigger] tokenizes(text, tokenizer.offset() as int, rest)
                    ==> tokenizes(text, start, tokens@ + rest),
            invariant
                tokenizer.text() == text,
                forall|i: int| 0 <= i < tokens@.len() ==> !(tokens@[i].0 == Token::Special(SpecialToken::Eof)),
            ensures
                tokenizes(text, start, tokens@),
                forall|i: int| 0 <= i < tokens@.len() ==> !(tokens@[i].0 == Token::Special(SpecialToken::Eof)),
            decreases tokenizer.text().len() - tokenizer.offset(),
        {
            let ghost cur = tokenizer.offset() as int;
            let ghost acc = tokens@;
            match tokenizer.next() {
                Some(pair) => {
                    tokens.push(pair);
                    proof {
                        let e = tokenizer.offset() as int;
                        assert forall|rest: Seq<(Token, Position)>| #[trigger] tokenizes(text, e, rest)
                            implies tokenizes(text, start, tokens@ + rest) by {
                            let one = seq![pair] + rest;
                            assert(one.drop_first() =~= rest);
                            assert(one[0] == pair);
                            let s = skip_end(text, cur);
                            if s == text.len() {
                                assert(text.skip(s).len() == 0);
                            }
                            assert(token_position(text, s, e) == pair.1);
                            assert(tokenizes(text, cur, one));
                            assert(acc + one =~= tokens@ + rest);
                        }
                    }
                },
                None => {
                    proof {
                        assert(tokenizes(text, cur, Seq::<(Token, Position)>::empty()));
                        assert(tokens@ + Seq::<(Token, Position)>::empty() =~= tokens@);
                    }
                    break;
                },
            }
        }
        Parser { tokens, index: 0, last_pos: Position { start_line: 0, start_column: 0, end_line: 0, end_column: 0 }, errors: Vec::new() }
    }

    /// The errors recorded so far.
    pub fn errors(&self) -> (r: &[ParseError])
        ensures
            r@ == self.recorded(),
    {
        self.errors.as_slice()
    }

    fn peek_token(&self) -> (r: Option<&Token>)
        requires
            self.wf(),
        ensures
            r == (match self.upcoming() { Some(t) => Some(&t), None => None }),
    {
        if self.index < self.tokens.len() {
            Some(&self.tokens[self.index].0)
        } else {
            None
        }
    }

    /// Where the next token is, or where the last one was at the end.
    fn peek_position(&self) -> (r: Position)
        requires
            self.wf(),
        ensures
            r == report_at(self.stream(), state_of(*self)),
    {
        if self.index < self.tokens.len() {
            self.tokens[self.index].1
        } else {
            self.last_pos
        }
    }

    fn next_token(&mut self) -> (r: Option<Token>)
        requires
            old(self).wf(),
        ensures
            moved_on(*old(self), *final(self)),
            final(self).recorded() == old(self).recorded(),
            r == old(self).upcoming(),
            r is Some ==> final(self).at() == old(self).at() + 1,
            r is None ==> final(self).at() == old(self).at(),
            state_of(*final(self)) == read_one(old(self).stream(), state_of(*old(self))),
    {
        if self.index < self.tokens.len() {
            let token = self.tokens[self.index].0.clone();
            self.last_pos = self.tokens[self.index].1;
            self.index = self.index + 1;
            Some(token)
        } else {
            None
        }
    }

    /// Whether the next token is the plain token `expected`.
    fn check_peek(&self, expected: &Token) -> (r: bool)
        requires
            self.wf(),
            is_plain(*expected),
        ensures
            r == (self.upcoming() == Some(*expected)),
    {
        match self.peek_token() {
            Some(t) => same_token(t, expected),
            None => false,
        }
    }

    fn record_error(&mut self, error: ParseError)
        requires
            old(self).wf(),
        ensures
            moved_on(*old(self), *final(self)),
            final(self).at() == old(self).at(),
            state_of(*final(self)) == state_of(*old(self)),
            final(self).recorded() == old(self).recorded().push(error),
    {
        self.errors.push(error);
    }

    /// Reads the next token, which is to be the plain token `expected`; the
    /// token is read whatever it is.
    fn consume(&mut self, expected: Token, expected_msg: &str) -> (r: Result<(), ParseError>)
        requires
            old(self).wf(),
            is_plain(expected),
        ensures
            moved_on(*old(self), *final(self)),
            final(self).recorded() == old(self).recorded(),
            old(self).upcoming() is Some ==> final(self).at() == old(self).at() + 1,
            r is Ok <==> old(self).upcoming() == Some(expected),
            state_of(*final(self)) == read_one(old(self).stream(), state_of(*old(self))),
            r is Err ==> expect_error(old(self).stream(), state_of(*old(self)), expected_msg@, r),
            match old(self).upcoming() {
                None => r matches Err(ParseError::UnexpectedEof(m, _)) && m@ == expected_msg@,
                Some(t) => t != expected ==> (r matches Err(ParseError::UnexpectedToken(f, m, _))
                    && f@ == token_debug(t) && m@ == expected_msg@),
            },
    {
        let pos = self.peek_position();
        match self.next_token() {
            Some(t) => {
                if same_token(&t, &expected) {
                    Ok(())
                } else {
                    Err(ParseError::UnexpectedToken(debug_token(&t), expected_msg.to_owned(), pos))
                }
            },
            None => Err(ParseError::UnexpectedEof(expected_msg.to_owned(), pos)),
        }
    }

    /// Reads the next token if it is the plain token `expected`.
    fn accept(&mut self, expected: Token) -> (r: bool)
        requires
            old(self).wf(),
            is_plain(expected),
        ensures
            moved_on(*old(self), *final(self)),
            final(self).recorded() == old(self).recorded(),
            r == (old(self).upcoming() == Some(expected)),
            r ==> final(self).at() == old(self).at() + 1,
            !r ==> final(self).at() == old(self).at(),
            state_of(*final(self)) == (if r { read_one(old(self).stream(), state_of(*old(self))) } else { state_of(*old(self)) }),
    {
        if self.check_peek(&expected) {
            self.next_token();
            true
        } else {
            false
        }
    }

    /// Reads an identifier.
    fn parse_identifier(&mut self) -> (r: Result<Identifier, ParseError>)
        requires
            old(self).wf(),
        ensures
            moved_on(*old(self), *final(self)),
            final(self).recorded() == old(self).recorded(),
            old(self).upcoming() is Some ==> final(self).at() == old(self).at() + 1,
            old(self).upcoming() matches Some(Token::Identifier(s)) ==> r == Ok::<Identifier, ParseError>(Identifier { name: s }),
            !(old(self).upcoming() matches Some(Token::Identifier(_))) ==> expect_error(old(self).stream(), state_of(*old(self)), "Expected identifier"@, r),
            state_of(*final(self)) == read_one(old(self).stream(), state_of(*old(self))),
    {
        let pos = self.peek_position();
        match self.next_token() {
            Some(Token::Identifier(s)) => Ok(Identifier { name: s }),
            Some(t) => Err(ParseError::UnexpectedToken(debug_token(&t), "Expected identifier".to_owned(), pos)),
            None => Err(ParseError::UnexpectedEof("Expected identifier".to_owned(), pos)),
        }
    }

    /// Reads a string literal token.
    fn parse_string(&mut self, expected_msg: &str) -> (r: Result<String, ParseError>)
        requires
            old(self).wf(),
        ensures
            moved_on(*old(self), *final(self)),
            final(self).recorded() == old(self).recorded(),
            old(self).upcoming() is Some ==> final(self).at() == old(self).at() + 1,
            old(self).upcoming() matches Some(Token::String(s)) ==> r == Ok::<String, ParseError>(s),
            !(old(self).upcoming() matches Some(Token::String(_))) ==> expect_error(old(self).stream(), state_of(*old(self)), expected_msg@, r),
            state_of(*final(self)) == read_one(old(self).stream(), state_of(*old(self))),
    {
        let pos = self.peek_position();
        match self.next_token() {
            Some(Token::String(s)) => Ok(s),
            Some(t) => Err(ParseError::UnexpectedToken(debug_token(&t), expected_msg.to_owned(), pos)),
            None => Err(ParseError::UnexpectedEof(expected_msg.to_owned(), pos)),
        }
    }
}

// ── Statements ───────────────────────────────────────────────────────────────

/// `p` read at least one token.
pub open spec fn consumed(a: Parser, b: Parser) -> bool {
    b.at() > a.at()
}

impl Parser {
    /// Parses statements until the end of the input or the first error,
    /// which is recorded.
    pub fn parse_program(&mut self) -> (r: Program)
        requires
            old(self).wf(),
        ensures
            moved_on(*old(self), *final(self)),
            reads_program(old(self).stream(), state_of(*old(self)), old(self).recorded(), Seq::empty(),
                state_of(*final(self)), final(self).recorded(), r.statements@),
            final(self).recorded().len() == old(self).recorded().len() ==> final(self).at() == final(self).stream().len(),
    {
        let ghost ts = self.tokens@;
        let ghost s0 = state_of(*self);
        let ghost es0 = self.errors@;
        let mut statements: Vec<Statement> = Vec::new();
        loop
            invariant_except_break
                forall|e: ReadState, ee: Seq<ParseError>, xs: Seq<Statement>|
                    #[trigger] reads_program(ts, state_of(*self), self.recorded(), statements@, e, ee, xs)
                        ==> reads_program(ts, s0, es0, Seq::empty(), e, ee, xs),
            invariant
                moved_on(*old(self), *self),
                self.stream() == ts,
                s0 == state_of(*old(self)),
                es0 == old(self).recorded(),
                0 <= s0.0 <= state_of(*self).0,
            ensures
                moved_on(*old(self), *self),
                reads_program(ts, s0, es0, Seq::empty(), state_of(*self), self.recorded(), statements@),
                self.recorded().len() == old(self).recorded().len() ==> self.at() == self.stream().len(),
            decreases self.remaining(),
        {
            if self.peek_token().is_none() || self.check_peek(&Token::Special(SpecialToken::Eof)) {
                let ghost c = state_of(*self);
                let ghost ce = self.recorded();
                assert(reads_program(ts, c, ce, statements@, c, ce, statements@));
                break;
            }
            let ghost cur = state_of(*self);
            let ghost ce = self.recorded();
            let ghost acc = statements@;
            let x = self.parse_statement();
            let ghost m = state_of(*self);
            let ghost me = self.recorded();
            assert(reads_statement(ts, cur, ce, m, me, x));
            assert(parsed_to(m, me, x));
            match x {
                Ok(stmt) => {
                    statements.push(stmt);
                },
                Err(e) => {
                    self.record_error(e);
                    assert(reads_program(ts, cur, ce, acc, m, me.push(e), acc));
                    break;
                },
            }
            proof {
                assert forall|e: ReadState, ee: Seq<ParseError>, xs: Seq<Statement>|
                    #[trigger] reads_program(ts, m, me, statements@, e, ee, xs) implies reads_program(ts, s0, es0, Seq::empty(), e, ee, xs) by {
                    assert(reads_statement(ts, cur, ce, m, me, x));
                    assert(parsed_to(m, me, x));
                    assert(reads_program(ts, cur, ce, acc, e, ee, xs));
                }
            }
        }
        Program { statements }
    }

    /// Parses one statement; on success at least one token was read.
    fn parse_statement(&mut self) -> (r: Result<Statement, ParseError>)
        requires
            old(self).wf(),
        ensures
            0 <= state_of(*old(self)).0 <= state_of(*final(self)).0 <= old(self).stream().len(),
            moved_on(*old(self), *final(self)),
            r is Ok ==> consumed(*old(self), *final(self)),
            reads_statement(old(self).stream(), state_of(*old(self)), old(self).recorded(), state_of(*final(self)), final(self).recorded(), r),
        decreases old(self).remaining(), 12int,
    {
        let ghost ts = self.tokens@;
        let ghost s0 = state_of(*self);
        let ghost es0 = self.errors@;
        match self.peek_token() {
            Some(Token::Keyword(KeywordToken::Let)) => self.parse_let_declaration(),
            Some(Token::Keyword(KeywordToken::Return)) => self.parse_return_statement(),
            Some(Token::Keyword(KeywordToken::Fn)) => {
                let r = self.parse_fn_declaration();
                let ghost gr = r;
                proof {
                    let e = state_of(*self);
                    match gr {
                        Ok(Statement::FunctionDeclaration { name, parameters, return_type, body }) => {
                            assert(step_to(e, Ok::<CallableParts, ParseError>((name, parameters@, return_type, body))));
                        },
                        Err(err) => {
                            assert(step_to(e, Err::<CallableParts, ParseError>(err)));
                        },
                        _ => {},
                    }
                }
                r
            },
            Some(Token::Keyword(KeywordToken::If)) => self.parse_if_statement(),
            Some(Token::Keyword(KeywordToken::While)) => self.parse_while_statement(),
            Some(Token::Keyword(KeywordToken::For)) => self.parse_for_statement(),
            Some(Token::Keyword(KeywordToken::Struct)) => self.parse_struct_declaration(),
            Some(Token::Keyword(KeywordToken::Import)) | Some(Token::Keyword(KeywordToken::From)) => self.parse_import_statement(),
            Some(Token::Keyword(KeywordToken::Break)) => self.parse_break_statement(),
            Some(Token::Keyword(KeywordToken::Export)) => self.parse_export_statement(),
            Some(Token::Keyword(KeywordToken::Impl)) => self.parse_impl_block(),
            Some(Token::Punctuation(PunctuationToken::LeftBrace)) => {
                let found = debug_token(&Token::Punctuation(PunctuationToken::LeftBrace));
                Err(ParseError::UnexpectedToken(found, "Expected statement start KeywordToken or expression".to_owned(), self.last_pos))
            },
            Some(Token::Punctuation(PunctuationToken::Semicolon)) => {
                self.next_token();
                Ok(Statement::ExpressionStatement(Expression::Literal(Literal::Null)))
            },
            Some(_) => self.parse_expression_statement(),
            None => {
                Err(ParseError::UnexpectedEof("Expected statement".to_owned(), self.last_pos))
            },
        }
    }
}

impl Parser {
    fn parse_let_declaration(&mut self) -> (r: Result<Statement, ParseError>)
        requires
            old(self).wf(),
            old(self).upcoming() is Some,
        ensures
            moved_on(*old(self), *final(self)),
            consumed(*old(self), *final(self)),
            final(self).recorded() == old(self).recorded(),
            reads_let(old(self).stream(), read_one(old(self).stream(), state_of(*old(self))), state_of(*final(self)), r),
    {
        let ghost ts = self.tokens@;
        self.next_token();
        let ghost s = state_of(*self);
        let name = self.parse_identifier()?;
        let ghost s1 = state_of(*self);
        let mut type_annotation = None;
        if self.accept(Token::Punctuation(PunctuationToken::Colon)) {
            let ghost s2 = state_of(*self);
            let t = self.parse_type_annotation();
            let ghost m = state_of(*self);
            assert(reads_type(ts, s2, m, t));
            assert(step_to(m, t));
            type_annotation = Some(t?);
        }
        let ghost m = state_of(*self);
        let mut initializer = None;
        if self.accept(Token::Assignment(AssignmentToken::Assign)) {
            let ghost m1 = state_of(*self);
            let x = self.parse_expression(Precedence::Lowest);
            let ghost n = state_of(*self);
            assert(reads_expression(ts, m1, Precedence::Lowest, n, x));
            assert(step_to(n, x));
            initializer = Some(x?);
        }
        self.accept(Token::Punctuation(PunctuationToken::Semicolon));
        Ok(Statement::LetDeclaration { name, type_annotation, initializer })
    }

    fn parse_return_statement(&mut self) -> (r: Result<Statement, ParseError>)
        requires
            old(self).wf(),
            old(self).upcoming() is Some,
        ensures
            moved_on(*old(self), *final(self)),
            consumed(*old(self), *final(self)),
            final(self).recorded() == old(self).recorded(),
            reads_return(old(self).stream(), read_one(old(self).stream(), state_of(*old(self))), state_of(*final(self)), r),
    {
        let ghost ts = self.tokens@;
        self.next_token();
        let ghost s = state_of(*self);
        let mut value = None;
        if !self.check_peek(&Token::Punctuation(PunctuationToken::Semicolon)) && !self.check_peek(&Token::Punctuation(PunctuationToken::RightBrace)) {
            let x = self.parse_expression(Precedence::Lowest);
            let ghost m = state_of(*self);
            assert(reads_expression(ts, s, Precedence::Lowest, m, x));
            assert(step_to(m, x));
            value = Some(x?);
        }
        self.accept(Token::Punctuation(PunctuationToken::Semicolon));
        Ok(Statement::ReturnStatement { value })
    }

    fn parse_fn_declaration(&mut self) -> (r: Result<Statement, ParseError>)
        requires
            old(self).wf(),
        ensures
            0 <= state_of(*old(self)).0 <= state_of(*final(self)).0 <= old(self).stream().len(),
            moved_on(*old(self), *final(self)),
            r is Ok ==> consumed(*old(self), *final(self)),
            match r {
                Ok(Statement::FunctionDeclaration { name, parameters, return_type, body }) =>
                    reads_callable(old(self).stream(), read_one(old(self).stream(), state_of(*old(self))), old(self).recorded(),
                        "Expected '(' after function name"@, state_of(*final(self)), final(self).recorded(),
                        Ok::<CallableParts, ParseError>((name, parameters@, return_type, body))),
                Ok(_) => false,
                Err(err) =>
                    reads_callable(old(self).stream(), read_one(old(self).stream(), state_of(*old(self))), old(self).recorded(),
                        "Expected '(' after function name"@, state_of(*final(self)), final(self).recorded(), Err::<CallableParts, ParseError>(err)),
            },
        decreases old(self).remaining(), 11int,
    {
        let ghost ts = self.tokens@;
        let ghost es0 = self.errors@;
        self.next_token();
        let ghost s = state_of(*self);
        let name = self.parse_identifier()?;
        self.consume(Token::Punctuation(PunctuationToken::LeftParen), "Expected '(' after function name")?;
        let ghost s2 = state_of(*self);
        let ps = self.parse_parameter_list();
        let ghost m = state_of(*self);
        assert(reads_parameters(ts, s2, m, seq_result(&ps)));
        assert(step_to(m, seq_result(&ps)));
        let parameters = ps?;
        let mut return_type = None;
        if self.accept(Token::Punctuation(PunctuationToken::Arrow)) {
            let ghost m1 = state_of(*self);
            let t = self.parse_type_annotation();
            let ghost n = state_of(*self);
            assert(reads_type(ts, m1, n, t));
            assert(step_to(n, t));
            return_type = Some(t?);
        }
        let ghost q = state_of(*self);
        let b = self.parse_block_statement();
        assert(reads_block(ts, q, es0, state_of(*self), self.recorded(), b));
        assert(step_to(state_of(*self), b));
        let body = b?;
        Ok(Statement::FunctionDeclaration { name, parameters, return_type, body })
    }

    /// Parses the parameters after a `(`, and the closing `)`.
    fn parse_parameter_list(&mut self) -> (r: Result<Vec<(Identifier, Option<TypeAnnotation>)>, ParseError>)
        requires
            old(self).wf(),
        ensures
            0 <= state_of(*old(self)).0 <= state_of(*final(self)).0 <= old(self).stream().len(),
            moved_on(*old(self), *final(self)),
            r is Ok ==> consumed(*old(self), *final(self)),
            final(self).recorded() == old(self).recorded(),
            reads_parameters(old(self).stream(), state_of(*old(self)), state_of(*final(self)), seq_result(&r)),
    {
        let ghost ts = self.tokens@;
        let ghost s0 = state_of(*self);
        let mut params: Vec<(Identifier, Option<TypeAnnotation>)> = Vec::new();
        if self.check_peek(&Token::Punctuation(PunctuationToken::RightParen)) {
            self.next_token();
            return Ok(params);
        }
        loop
            invariant_except_break
                forall|e: ReadState, r: Result<Seq<(Identifier, Option<TypeAnnotation>)>, ParseError>|
                    #[trigger] reads_parameter_items(ts, state_of(*self), params@, e, r) ==> reads_parameters(ts, s0, e, r),
            invariant
                moved_on(*old(self), *self),
                self.recorded() == old(self).recorded(),
                self.stream() == ts,
                s0 == state_of(*old(self)),
                0 <= s0.0 <= state_of(*self).0,
                params@.len() > 0 ==> consumed(*old(self), *self),
            ensures
                moved_on(*old(self), *self),
                consumed(*old(self), *self),
                self.recorded() == old(self).recorded(),
                self.stream() == ts,
                0 <= s0.0 <= state_of(*self).0,
                token_at(ts, state_of(*self).0) != Some(Token::Punctuation(PunctuationToken::Comma)),
                forall|e: ReadState, r: Result<Seq<(Identifier, Option<TypeAnnotation>)>, ParseError>|
                    #[trigger] after_parameter(ts, state_of(*self), params@, e, r) ==> reads_parameters(ts, s0, e, r),
            decreases self.remaining(),
        {
            let ghost cur = state_of(*self);
            let ghost acc = params@;
            let param_name = match self.parse_identifier() {
                Ok(n) => n,
                Err(err) => {
                    let ghost c = state_of(*self);
                    let ghost xs = Err::<Seq<(Identifier, Option<TypeAnnotation>)>, ParseError>(err);
                    assert(reads_parameter_items(ts, cur, acc, c, xs));
                    return Err(err);
                },
            };
            let ghost s1 = state_of(*self);
            let mut param_type = None;
            if self.accept(Token::Punctuation(PunctuationToken::Colon)) {
                let ghost s2 = state_of(*self);
                let x = self.parse_type_annotation();
                let ghost m = state_of(*self);
                assert(reads_type(ts, s2, m, x));
                assert(step_to(m, x));
                match x {
                    Ok(t) => {
                        param_type = Some(t);
                    },
                    Err(err) => {
                        let ghost xs = Err::<Seq<(Identifier, Option<TypeAnnotation>)>, ParseError>(err);
                        assert(reads_parameter_items(ts, cur, acc, m, xs));
                        return Err(err);
                    },
                }
            }
            let ghost m = state_of(*self);
            params.push((param_name, param_type));
            assert(forall|e: ReadState, r: Result<Seq<(Identifier, Option<TypeAnnotation>)>, ParseError>|
                #[trigger] after_parameter(ts, m, params@, e, r) ==> reads_parameter_items(ts, cur, acc, e, r));
            if !self.accept(Token::Punctuation(PunctuationToken::Comma)) {
                break;
            }
            proof {
                let c = state_of(*self);
                assert forall|e: ReadState, r: Result<Seq<(Identifier, Option<TypeAnnotation>)>, ParseError>|
                    #[trigger] reads_parameter_items(ts, c, params@, e, r) implies reads_parameters(ts, s0, e, r) by {
                    assert(after_parameter(ts, m, params@, e, r));
                }
            }
        }
        let ghost m = state_of(*self);
        match self.consume(Token::Punctuation(PunctuationToken::RightParen), "Expected ')' or ',' in parameter list") {
            Ok(()) => {},
            Err(err) => {
                let ghost xs = Err::<Seq<(Identifier, Option<TypeAnnotation>)>, ParseError>(err);
                assert(after_parameter(ts, m, params@, state_of(*self), xs));
                return Err(err);
            },
        }
        assert(after_parameter(ts, m, params@, state_of(*self), Ok::<Seq<(Identifier, Option<TypeAnnotation>)>, ParseError>(params@)));
        Ok(params)
    }

    fn parse_if_statement(&mut self) -> (r: Result<Statement, ParseError>)
        requires
            old(self).wf(),
        ensures
            0 <= state_of(*old(self)).0 <= state_of(*final(self)).0 <= old(self).stream().len(),
            moved_on(*old(self), *final(self)),
            r is Ok ==> consumed(*old(self), *final(self)),
            reads_if(old(self).stream(), read_one(old(self).stream(), state_of(*old(self))), old(self).recorded(),
                state_of(*final(self)), final(self).recorded(), r),
        decreases old(self).remaining(), 11int,
    {
        let ghost ts = self.tokens@;
        let ghost es0 = self.errors@;
        self.next_token();
        let ghost s = state_of(*self);
        match self.consume(Token::Punctuation(PunctuationToken::LeftParen), "Expected '(' after 'if'") {
            Ok(()) => {},
            Err(err) => {
                let ghost m = state_of(*self);
                let ghost c = Err::<Expression, ParseError>(err);
                assert(reads_condition(ts, s, "Expected '(' after 'if'"@, "Expected ')' after if condition"@, m, c));
                assert(step_to(m, c));
                return Err(err);
            },
        }
        let ghost s1 = state_of(*self);
        let x = self.parse_expression(Precedence::Lowest);
        let ghost mx = state_of(*self);
        assert(reads_expression(ts, s1, Precedence::Lowest, mx, x));
        assert(step_to(mx, x));
        let condition = match x {
            Ok(c) => c,
            Err(err) => {
                let ghost c = Err::<Expression, ParseError>(err);
                assert(reads_condition(ts, s, "Expected '(' after 'if'"@, "Expected ')' after if condition"@, mx, c));
                assert(step_to(mx, c));
                return Err(err);
            },
        };
        match self.consume(Token::Punctuation(PunctuationToken::RightParen), "Expected ')' after if condition") {
            Ok(()) => {},
            Err(err) => {
                let ghost m = state_of(*self);
                let ghost c = Err::<Expression, ParseError>(err);
                assert(reads_condition(ts, s, "Expected '(' after 'if'"@, "Expected ')' after if condition"@, m, c));
                assert(step_to(m, c));
                return Err(err);
            },
        }
        let ghost m = state_of(*self);
        let ghost c = Ok::<Expression, ParseError>(condition);
        assert(reads_condition(ts, s, "Expected '(' after 'if'"@, "Expected ')' after if condition"@, m, c));
        assert(step_to(m, c));
        let b = self.parse_block_statement();
        let ghost m2 = state_of(*self);
        let ghost me2 = self.recorded();
        assert(reads_block(ts, m, es0, m2, me2, b));
        assert(parsed_to(m2, me2, b));
        let consequence = b?;
        let a = self.parse_if_alternative();
        assert(reads_if_alternative(ts, m2, me2, state_of(*self), self.recorded(), a));
        assert(step_to(state_of(*self), a));
        let alternative = a?;
        Ok(Statement::IfStatement { condition, consequence, alternative })
    }

    fn parse_if_alternative(&mut self) -> (r: Result<Option<IfAlternative>, ParseError>)
        requires
            old(self).wf(),
        ensures
            0 <= state_of(*old(self)).0 <= state_of(*final(self)).0 <= old(self).stream().len(),
            moved_on(*old(self), *final(self)),
            reads_if_alternative(old(self).stream(), state_of(*old(self)), old(self).recorded(),
                state_of(*final(self)), final(self).recorded(), r),
        decreases old(self).remaining(), 11int,
    {
        let ghost ts = self.tokens@;
        let ghost es0 = self.errors@;
        if self.accept(Token::Keyword(KeywordToken::Elif)) {
            let ghost s = state_of(*self);
            match self.consume(Token::Punctuation(PunctuationToken::LeftParen), "Expected '(' after 'elif'") {
                Ok(()) => {},
                Err(err) => {
                    let ghost m = state_of(*self);
                    let ghost c = Err::<Expression, ParseError>(err);
                    assert(reads_condition(ts, s, "Expected '(' after 'elif'"@, "Expected ')' after elif condition"@, m, c));
                    assert(step_to(m, c));
                    return Err(err);
                },
            }
            let ghost s1 = state_of(*self);
            let x = self.parse_expression(Precedence::Lowest);
            let ghost mx = state_of(*self);
            assert(reads_expression(ts, s1, Precedence::Lowest, mx, x));
            assert(step_to(mx, x));
            let condition = match x {
                Ok(c) => c,
                Err(err) => {
                    let ghost c = Err::<Expression, ParseError>(err);
                    assert(reads_condition(ts, s, "Expected '(' after 'elif'"@, "Expected ')' after elif condition"@, mx, c));
                    assert(step_to(mx, c));
                    return Err(err);
                },
            };
            match self.consume(Token::Punctuation(PunctuationToken::RightParen), "Expected ')' after elif condition") {
                Ok(()) => {},
                Err(err) => {
                    let ghost m = state_of(*self);
                    let ghost c = Err::<Expression, ParseError>(err);
                    assert(reads_condition(ts, s, "Expected '(' after 'elif'"@, "Expected ')' after elif condition"@, m, c));
                    assert(step_to(m, c));
                    return Err(err);
                },
            }
            let ghost m = state_of(*self);
            let ghost c = Ok::<Expression, ParseError>(condition);
            assert(reads_condition(ts, s, "Expected '(' after 'elif'"@, "Expected ')' after elif condition"@, m, c));
            assert(step_to(m, c));
            let b = self.parse_block_statement();
            let ghost m2 = state_of(*self);
            let ghost me2 = self.recorded();
            assert(reads_block(ts, m, es0, m2, me2, b));
            assert(parsed_to(m2, me2, b));
            let consequence = b?;
            let a = self.parse_if_alternative();
            assert(reads_if_alternative(ts, m2, me2, state_of(*self), self.recorded(), a));
            assert(step_to(state_of(*self), a));
            let alternative = a?;
            let alternative = match alternative {
                Some(a) => Some(Box::new(a)),
                None => None,
            };
            Ok(Some(IfAlternative::Elif { condition, consequence, alternative }))
        } else if self.accept(Token::Keyword(KeywordToken::Else)) {
            let ghost s = state_of(*self);
            let b = self.parse_block_statement();
            assert(reads_block(ts, s, es0, state_of(*self), self.recorded(), b));
            assert(step_to(state_of(*self), b));
            let consequence = b?;
            Ok(Some(IfAlternative::Else { consequence }))
        } else {
            Ok(None)
        }
    }

    fn parse_while_statement(&mut self) -> (r: Result<Statement, ParseError>)
        requires
            old(self).wf(),
        ensures
            0 <= state_of(*old(self)).0 <= state_of(*final(self)).0 <= old(self).stream().len(),
            moved_on(*old(self), *final(self)),
            r is Ok ==> consumed(*old(self), *final(self)),
            reads_while(old(self).stream(), read_one(old(self).stream(), state_of(*old(self))), old(self).recorded(),
                state_of(*final(self)), final(self).recorded(), r),
        decreases old(self).remaining(), 11int,
    {
        let ghost ts = self.tokens@;
        let ghost es0 = self.errors@;
        self.next_token();
        let ghost s = state_of(*self);
        match self.consume(Token::Punctuation(PunctuationToken::LeftParen), "Expected '(' after 'while'") {
            Ok(()) => {},
            Err(err) => {
                let ghost m = state_of(*self);
                let ghost c = Err::<Expression, ParseError>(err);
                assert(reads_condition(ts, s, "Expected '(' after 'while'"@, "Expected ')' after while condition"@, m, c));
                assert(step_to(m, c));
                return Err(err);
            },
        }
        let ghost s1 = state_of(*self);
        let x = self.parse_expression(Precedence::Lowest);
        let ghost mx = state_of(*self);
        assert(reads_expression(ts, s1, Precedence::Lowest, mx, x));
        assert(step_to(mx, x));
        let condition = match x {
            Ok(c) => c,
            Err(err) => {
                let ghost c = Err::<Expression, ParseError>(err);
                assert(reads_condition(ts, s, "Expected '(' after 'while'"@, "Expected ')' after while condition"@, mx, c));
                assert(step_to(mx, c));
                return Err(err);
            },
        };
        match self.consume(Token::Punctuation(PunctuationToken::RightParen), "Expected ')' after while condition") {
            Ok(()) => {},
            Err(err) => {
                let ghost m = state_of(*self);
                let ghost c = Err::<Expression, ParseError>(err);
                assert(reads_condition(ts, s, "Expected '(' after 'while'"@, "Expected ')' after while condition"@, m, c));
                assert(step_to(m, c));
                return Err(err);
            },
        }
        let ghost m = state_of(*self);
        let ghost c = Ok::<Expression, ParseError>(condition);
        assert(reads_condition(ts, s, "Expected '(' after 'while'"@, "Expected ')' after while condition"@, m, c));
        assert(step_to(m, c));
        let b = self.parse_block_statement();
        assert(reads_block(ts, m, es0, state_of(*self), self.recorded(), b));
        assert(step_to(state_of(*self), b));
        let body = b?;
        Ok(Statement::WhileStatement { condition, body })
    }

    fn parse_for_statement(&mut self) -> (r: Result<Statement, ParseError>)
        requires
            old(self).wf(),
        ensures
            0 <= state_of(*old(self)).0 <= state_of(*final(self)).0 <= old(self).stream().len(),
            moved_on(*old(self), *final(self)),
            r is Ok ==> consumed(*old(self), *final(self)),
            reads_for(old(self).stream(), read_one(old(self).stream(), state_of(*old(self))), old(self).recorded(),
                state_of(*final(self)), final(self).recorded(), r),
        decreases old(self).remaining(), 11int,
    {
        let ghost ts = self.tokens@;
        let ghost es0 = self.errors@;
        self.next_token();
        let variable = self.parse_identifier()?;
        let in_token = match self.next_token() {
            Some(t) => t,
            None => {
                return Err(ParseError::UnexpectedEof("Expected 'in' after variable in for loop".to_owned(), self.last_pos));
            },
        };
        let is_in = match &in_token {
            Token::Identifier(s) => same_text(s.as_str(), "in"),
            _ => false,
        };
        if !is_in {
            return Err(ParseError::UnexpectedToken(debug_token(&in_token), "Expected 'in'".to_owned(), self.last_pos));
        }
        let ghost s2 = state_of(*self);
        let x = self.parse_expression(Precedence::Lowest);
        let ghost m = state_of(*self);
        assert(reads_expression(ts, s2, Precedence::Lowest, m, x));
        assert(step_to(m, x));
        let iterable = x?;
        let b = self.parse_block_statement();
        assert(reads_block(ts, m, es0, state_of(*self), self.recorded(), b));
        assert(step_to(state_of(*self), b));
        let body = b?;
        Ok(Statement::ForStatement { variable, iterable, body })
    }

    fn parse_struct_declaration(&mut self) -> (r: Result<Statement, ParseError>)
        requires
            old(self).wf(),
        ensures
            0 <= state_of(*old(self)).0 <= state_of(*final(self)).0 <= old(self).stream().len(),
            moved_on(*old(self), *final(self)),
            r is Ok ==> consumed(*old(self), *final(self)),
            reads_struct(old(self).stream(), read_one(old(self).stream(), state_of(*old(self))), old(self).recorded(),
                state_of(*final(self)), final(self).recorded(), r),
        decreases old(self).remaining(), 11int,
    {
        let ghost ts = self.tokens@;
        let ghost s0 = state_of(*self);
        let ghost es0 = self.errors@;
        self.next_token();
        let ghost s = state_of(*self);
        let name = self.parse_identifier()?;
        let ghost s1 = state_of(*self);
        self.consume(Token::Punctuation(PunctuationToken::LeftBrace), "Expected '{' after struct name")?;
        let ghost s2 = state_of(*self);
        let mut fields: Vec<FieldDefinition> = Vec::new();
        let methods: Vec<MethodDefinition> = Vec::new();
        while !self.check_peek(&Token::Punctuation(PunctuationToken::RightBrace)) && self.peek_token().is_some()
            invariant
                moved_on(*old(self), *self),
                consumed(*old(self), *self),
                self.stream() == ts,
                s0 == state_of(*old(self)),
                es0 == old(self).recorded(),
                s == read_one(ts, s0),
                s1 == read_one(ts, s),
                s2 == read_one(ts, s1),
                token_at(ts, s.0) == Some(Token::Identifier(name.name)),
                token_at(ts, s1.0) == Some(Token::Punctuation(PunctuationToken::LeftBrace)),
                0 <= s.0 < s2.0 <= state_of(*self).0,
                methods@.len() == 0,
                forall|e: ReadState, ee: Seq<ParseError>, r: Result<Seq<FieldDefinition>, ParseError>|
                    #[trigger] reads_struct_body(ts, state_of(*self), self.recorded(), fields@, e, ee, r)
                        ==> reads_struct_body(ts, s2, es0, Seq::empty(), e, ee, r),
            decreases self.remaining(),
        {
            let ghost cur = state_of(*self);
            let ghost ce = self.recorded();
            let ghost acc = fields@;
            match self.peek_token() {
                Some(Token::Keyword(KeywordToken::Fn)) => {
                    let e = ParseError::Other("Method parsing within struct not implemented yet.".to_owned(), self.last_pos);
                    self.record_error(e);
                    let ghost es1 = self.recorded();
                    assert(noted(es1));
                    assert(es1.drop_last() == ce);
                    self.next_token();
                    if let Some(Token::Identifier(_)) = self.peek_token() {
                        self.next_token();
                    }
                    let ghost c2 = state_of(*self);
                    if self.check_peek(&Token::Punctuation(PunctuationToken::LeftBrace)) {
                        let b = self.parse_block_statement();
                        let ghost m = state_of(*self);
                        let ghost me = self.recorded();
                        assert(reads_block(ts, c2, es1, m, me, b));
                        assert(parsed_to(m, me, b));
                        match b {
                            Ok(_) => {},
                            Err(e) => self.record_error(e),
                        }
                    }
                },
                Some(Token::Identifier(_)) => {
                    let field_name = self.parse_identifier()?;
                    let ghost c1 = state_of(*self);
                    match self.consume(Token::Punctuation(PunctuationToken::Colon), "Expected ':' after field name") {
                        Ok(()) => {},
                        Err(err) => {
                            let ghost fs = Err::<Seq<FieldDefinition>, ParseError>(err);
                            assert(reads_struct_body(ts, cur, ce, acc, state_of(*self), ce, fs));
                            assert(step_to(state_of(*self), fs));
                            return Err(err);
                        },
                    }
                    let ghost m1 = state_of(*self);
                    let t = self.parse_type_annotation();
                    let ghost n = state_of(*self);
                    assert(reads_type(ts, m1, n, t));
                    assert(step_to(n, t));
                    let field_type = match t {
                        Ok(t) => t,
                        Err(err) => {
                            let ghost fs = Err::<Seq<FieldDefinition>, ParseError>(err);
                            assert(reads_struct_body(ts, cur, ce, acc, n, ce, fs));
                            assert(step_to(n, fs));
                            return Err(err);
                        },
                    };
                    self.accept(Token::Punctuation(PunctuationToken::Comma));
                    fields.push(FieldDefinition { name: field_name, type_annotation: field_type });
                },
                Some(other) => {
                    let e = ParseError::UnexpectedToken(
                        debug_token(other),
                        "Expected field (identifier) or method ('fn') in struct body".to_owned(),
                        self.last_pos,
                    );
                    self.record_error(e);
                    let ghost es1 = self.recorded();
                    assert(noted(es1));
                    assert(es1.drop_last() == ce);
                    self.next_token();
                },
                None => {
                    return Err(ParseError::UnexpectedEof("Expected field, method, or '}' in struct body".to_owned(), self.last_pos));
                },
            }
            proof {
                let c = state_of(*self);
                let cr = self.recorded();
                assert forall|e: ReadState, ee: Seq<ParseError>, r: Result<Seq<FieldDefinition>, ParseError>|
                    #[trigger] reads_struct_body(ts, c, cr, fields@, e, ee, r) implies reads_struct_body(ts, s2, es0, Seq::empty(), e, ee, r) by {
                    assert(reads_struct_body(ts, cur, ce, acc, e, ee, r));
                }
            }
        }
        let ghost m = state_of(*self);
        let ghost me = self.recorded();
        match self.consume(Token::Punctuation(PunctuationToken::RightBrace), "Expected '}' to end struct definition") {
            Ok(()) => {},
            Err(err) => {
                let ghost fs = Err::<Seq<FieldDefinition>, ParseError>(err);
                assert(reads_struct_body(ts, m, me, fields@, state_of(*self), me, fs));
                assert(step_to(state_of(*self), fs));
                return Err(err);
            },
        }
        let ghost fs = Ok::<Seq<FieldDefinition>, ParseError>(fields@);
        assert(reads_struct_body(ts, m, me, fields@, state_of(*self), me, fs));
        assert(step_to(state_of(*self), fs));
        Ok(Statement::StructDeclaration(StructDefinition { name, fields, methods }))
    }

    fn parse_import_statement(&mut self) -> (r: Result<Statement, ParseError>)
        requires
            old(self).wf(),
        ensures
            moved_on(*old(self), *final(self)),
            r is Ok ==> consumed(*old(self), *final(self)),
            final(self).recorded() == old(self).recorded(),
            reads_import(old(self).stream(), state_of(*old(self)), state_of(*final(self)), r),
    {
        let ghost ts = self.tokens@;
        let ghost s0 = state_of(*self);
        if self.check_peek(&Token::Keyword(KeywordToken::Import)) {
            self.next_token();
            let path = self.parse_string("Expected string literal for module path after 'import'")?;
            let mut alias = None;
            if self.accept(Token::Keyword(KeywordToken::As)) {
                alias = Some(self.parse_identifier()?);
            }
            self.accept(Token::Punctuation(PunctuationToken::Semicolon));
            Ok(Statement::ImportStatement(ImportDeclaration::ImportModule { path, alias }))
        } else if self.check_peek(&Token::Keyword(KeywordToken::From)) {
            self.next_token();
            let is_std = match self.peek_token() {
                Some(Token::Identifier(ident)) => same_text(ident.as_str(), "std"),
                _ => false,
            };
            let source = match self.peek_token() {
                Some(Token::String(_)) => {
                    let path = self.parse_string("Expected string literal for module path after 'from'")?;
                    ImportSource::File(path)
                },
                _ => {
                    if is_std {
                        self.next_token();
                        ImportSource::Std
                    } else {
                        let found = debug_peeked(self.peek_token());
                        return Err(ParseError::UnexpectedToken(
                            found,
                            "Expected module path (string literal) or 'std' after 'from'".to_owned(),
                            self.last_pos,
                        ));
                    }
                },
            };
            let ghost h = state_of(*self);
            assert(forall|e: ReadState, r: Result<Statement, ParseError>|
                #[trigger] reads_symbols_head(ts, h, source, e, r) ==> reads_import(ts, s0, e, r));
            self.consume(Token::Keyword(KeywordToken::Import), "Expected 'import' after source in 'from' statement")?;
            let ghost k = state_of(*self);
            let mut symbols: Vec<(Identifier, Option<Identifier>)> = Vec::new();
            loop
                invariant_except_break
                    forall|e: ReadState, r: Result<Seq<(Identifier, Option<Identifier>)>, ParseError>|
                        #[trigger] reads_symbols(ts, state_of(*self), symbols@, e, r) ==> reads_symbols(ts, k, Seq::empty(), e, r),
                invariant
                    moved_on(*old(self), *self),
                    consumed(*old(self), *self),
                    self.recorded() == old(self).recorded(),
                    self.stream() == ts,
                    s0 == state_of(*old(self)),
                    token_at(ts, h.0) == Some(Token::Keyword(KeywordToken::Import)),
                    k == read_one(ts, h),
                    0 <= k.0 <= state_of(*self).0,
                    forall|e: ReadState, r: Result<Statement, ParseError>|
                        #[trigger] reads_symbols_head(ts, h, source, e, r) ==> reads_import(ts, s0, e, r),
                ensures
                    moved_on(*old(self), *self),
                    consumed(*old(self), *self),
                    self.recorded() == old(self).recorded(),
                    self.stream() == ts,
                    0 <= k.0 <= state_of(*self).0,
                    token_at(ts, state_of(*self).0) != Some(Token::Punctuation(PunctuationToken::Comma)),
                    forall|e: ReadState, r: Result<Seq<(Identifier, Option<Identifier>)>, ParseError>|
                        #[trigger] after_symbol(ts, state_of(*self), symbols@, e, r) ==> reads_symbols(ts, k, Seq::empty(), e, r),
                decreases self.remaining(),
            {
                let ghost cur = state_of(*self);
                let ghost acc = symbols@;
                let name = match self.parse_identifier() {
                    Ok(n) => n,
                    Err(err) => {
                        let ghost c = state_of(*self);
                        let ghost xs = Err::<Seq<(Identifier, Option<Identifier>)>, ParseError>(err);
                        assert(reads_symbols(ts, cur, acc, c, xs));
                        assert(step_to(c, xs));
                        assert(reads_symbols_head(ts, h, source, c, Err::<Statement, ParseError>(err)));
                        return Err(err);
                    },
                };
                let mut alias = None;
                if self.accept(Token::Keyword(KeywordToken::As)) {
                    match self.parse_identifier() {
                        Ok(a) => {
                            alias = Some(a);
                        },
                        Err(err) => {
                            let ghost c = state_of(*self);
                            let ghost xs = Err::<Seq<(Identifier, Option<Identifier>)>, ParseError>(err);
                            assert(reads_symbols(ts, cur, acc, c, xs));
                            assert(step_to(c, xs));
                            assert(reads_symbols_head(ts, h, source, c, Err::<Statement, ParseError>(err)));
                            return Err(err);
                        },
                    }
                }
                let ghost m = state_of(*self);
                symbols.push((name, alias));
                assert(forall|e: ReadState, r: Result<Seq<(Identifier, Option<Identifier>)>, ParseError>|
                    #[trigger] after_symbol(ts, m, symbols@, e, r) ==> reads_symbols(ts, cur, acc, e, r));
                if !self.accept(Token::Punctuation(PunctuationToken::Comma)) {
                    break;
                }
                proof {
                    let c = state_of(*self);
                    assert forall|e: ReadState, r: Result<Seq<(Identifier, Option<Identifier>)>, ParseError>|
                        #[trigger] reads_symbols(ts, c, symbols@, e, r) implies reads_symbols(ts, k, Seq::empty(), e, r) by {
                        assert(after_symbol(ts, m, symbols@, e, r));
                    }
                }
            }
            let ghost m = state_of(*self);
            let ghost xs = Ok::<Seq<(Identifier, Option<Identifier>)>, ParseError>(symbols@);
            assert(after_symbol(ts, m, symbols@, m, xs));
            assert(step_to(m, xs));
            self.accept(Token::Punctuation(PunctuationToken::Semicolon));
            let r = Statement::ImportStatement(ImportDeclaration::ImportSymbols { source, symbols });
            assert(reads_symbols_head(ts, h, source, state_of(*self), Ok::<Statement, ParseError>(r)));
            Ok(r)
        } else {
            Err(ParseError::Other("Internal error: parse_import_statement called unexpectedly".to_owned(), self.last_pos))
        }
    }

    fn parse_break_statement(&mut self) -> (r: Result<Statement, ParseError>)
        requires
            old(self).wf(),
            old(self).upcoming() is Some,
        ensures
            moved_on(*old(self), *final(self)),
            consumed(*old(self), *final(self)),
            final(self).recorded() == old(self).recorded(),
            state_of(*final(self)) == skip_semicolon(old(self).stream(), read_one(old(self).stream(), state_of(*old(self)))),
            r == Ok::<Statement, ParseError>(Statement::BreakStatement),
    {
        self.next_token();
        self.accept(Token::Punctuation(PunctuationToken::Semicolon));
        Ok(Statement::BreakStatement)
    }

    fn parse_export_statement(&mut self) -> (r: Result<Statement, ParseError>)
        requires
            old(self).wf(),
            old(self).upcoming() is Some,
        ensures
            moved_on(*old(self), *final(self)),
            consumed(*old(self), *final(self)),
            final(self).recorded() == old(self).recorded(),
            reads_export(old(self).stream(), read_one(old(self).stream(), state_of(*old(self))), state_of(*final(self)), r),
    {
        self.next_token();
        let name = self.parse_identifier()?;
        self.accept(Token::Punctuation(PunctuationToken::Semicolon));
        Ok(Statement::ExportStatement(ExportDeclaration::Identifier(name)))
    }

    fn parse_expression_statement(&mut self) -> (r: Result<Statement, ParseError>)
        requires
            old(self).wf(),
        ensures
            moved_on(*old(self), *final(self)),
            r is Ok ==> consumed(*old(self), *final(self)),
            final(self).recorded() == old(self).recorded(),
            reads_expression_statement(old(self).stream(), state_of(*old(self)), state_of(*final(self)), r),
        decreases old(self).remaining(), 11int,
    {
        let ghost ts = self.tokens@;
        let ghost s = state_of(*self);
        if self.check_peek(&Token::Punctuation(PunctuationToken::Semicolon)) {
            self.next_token();
            return Ok(Statement::ExpressionStatement(Expression::Literal(Literal::Null)));
        }
        let x = self.parse_expression(Precedence::Lowest);
        let ghost m = state_of(*self);
        assert(reads_expression(ts, s, Precedence::Lowest, m, x));
        assert(step_to(m, x));
        let expression = x?;
        self.accept(Token::Punctuation(PunctuationToken::Semicolon));
        Ok(Statement::ExpressionStatement(expression))
    }

    fn parse_block_statement(&mut self) -> (r: Result<BlockStatement, ParseError>)
        requires
            old(self).wf(),
        ensures
            0 <= state_of(*old(self)).0 <= state_of(*final(self)).0 <= old(self).stream().len(),
            moved_on(*old(self), *final(self)),
            r is Ok ==> consumed(*old(self), *final(self)),
            reads_block(old(self).stream(), state_of(*old(self)), old(self).recorded(), state_of(*final(self)), final(self).recorded(), r),
        decreases old(self).remaining(), 11int,
    {
        let ghost ts = self.tokens@;
        let ghost s0 = state_of(*self);
        let ghost es0 = self.errors@;
        self.consume(Token::Punctuation(PunctuationToken::LeftBrace), "Expected '{' to start block")?;
        let ghost s1 = state_of(*self);
        let mut statements: Vec<Statement> = Vec::new();
        while !self.check_peek(&Token::Punctuation(PunctuationToken::RightBrace)) && self.peek_token().is_some()
            invariant
                moved_on(*old(self), *self),
                consumed(*old(self), *self),
                self.stream() == ts,
                s0 == state_of(*old(self)),
                es0 == old(self).recorded(),
                token_at(ts, s0.0) == Some(Token::Punctuation(PunctuationToken::LeftBrace)),
                s1 == read_one(ts, s0),
                s1.0 <= state_of(*self).0,
                forall|e: ReadState, ee: Seq<ParseError>, r: Result<Seq<Statement>, ParseError>|
                    #[trigger] reads_block_items(ts, state_of(*self), self.recorded(), statements@, e, ee, r)
                        ==> reads_block_items(ts, s1, es0, Seq::empty(), e, ee, r),
            decreases self.remaining(),
        {
            let ghost cur = state_of(*self);
            let ghost ce = self.recorded();
            let ghost acc = statements@;
            let x = self.parse_statement();
            let ghost m = state_of(*self);
            let ghost me = self.recorded();
            assert(reads_statement(ts, cur, ce, m, me, x));
            assert(parsed_to(m, me, x));
            let statement = match x {
                Ok(st) => st,
                Err(err) => {
                    let ghost xs = Err::<Seq<Statement>, ParseError>(err);
                    assert(reads_block_items(ts, cur, ce, acc, m, me, xs));
                    assert(reads_block_items(ts, s1, es0, Seq::empty(), m, me, xs));
                    assert(step_to(m, xs));
                    return Err(err);
                },
            };
            statements.push(statement);
            proof {
                assert forall|e: ReadState, ee: Seq<ParseError>, r: Result<Seq<Statement>, ParseError>|
                    #[trigger] reads_block_items(ts, m, me, statements@, e, ee, r) implies reads_block_items(ts, s1, es0, Seq::empty(), e, ee, r) by {
                    assert(reads_statement(ts, cur, ce, m, me, x));
                    assert(parsed_to(m, me, x));
                    assert(reads_block_items(ts, cur, ce, acc, e, ee, r));
                }
            }
        }
        let ghost m = state_of(*self);
        let ghost me = self.recorded();
        match self.consume(Token::Punctuation(PunctuationToken::RightBrace), "Expected '}' to end block") {
            Ok(()) => {},
            Err(err) => {
                let ghost xs = Err::<Seq<Statement>, ParseError>(err);
                assert(reads_block_items(ts, m, me, statements@, state_of(*self), me, xs));
                assert(reads_block_items(ts, s1, es0, Seq::empty(), state_of(*self), me, xs));
                assert(step_to(state_of(*self), xs));
                return Err(err);
            },
        }
        let ghost xs = Ok::<Seq<Statement>, ParseError>(statements@);
        assert(reads_block_items(ts, m, me, statements@, state_of(*self), me, xs));
        assert(reads_block_items(ts, s1, es0, Seq::empty(), state_of(*self), me, xs));
        assert(step_to(state_of(*self), xs));
        Ok(BlockStatement { statements })
    }

    fn parse_type_annotation(&mut self) -> (r: Result<TypeAnnotation, ParseError>)
        requires
            old(self).wf(),
        ensures
            0 <= state_of(*old(self)).0 <= state_of(*final(self)).0 <= old(self).stream().len(),
            moved_on(*old(self), *final(self)),
            r is Ok ==> consumed(*old(self), *final(self)),
            final(self).recorded() == old(self).recorded(),
            reads_type(old(self).stream(), state_of(*old(self)), state_of(*final(self)), r),
        decreases old(self).remaining(),
    {
        let ghost ts = self.tokens@;
        let ghost s0 = state_of(*self);
        let base_ident = self.parse_identifier()?;
        if same_text(base_ident.name.as_str(), "void") {
            return Ok(TypeAnnotation::Void);
        }
        if self.accept(Token::Operator(OperatorToken::LessThan)) {
            let ghost s2 = state_of(*self);
            let mut arguments: Vec<TypeAnnotation> = Vec::new();
            if !self.check_peek(&Token::Operator(OperatorToken::GreaterThan)) {
                loop
                    invariant_except_break
                        forall|e: ReadState, r: Result<Seq<TypeAnnotation>, ParseError>|
                            #[trigger] reads_type_arguments(ts, state_of(*self), arguments@, e, r) ==> reads_type_arguments(ts, s2, Seq::empty(), e, r),
                    invariant
                        moved_on(*old(self), *self),
                        consumed(*old(self), *self),
                        self.recorded() == old(self).recorded(),
                        self.stream() == ts,
                        s0 == state_of(*old(self)),
                        0 <= s0.0 < s2.0 <= state_of(*self).0,
                        s2 == read_one(ts, read_one(ts, s0)),
                        token_at(ts, s0.0) == Some(Token::Identifier(base_ident.name)),
                        base_ident.name@ != "void"@,
                        token_at(ts, read_one(ts, s0).0) == Some(Token::Operator(OperatorToken::LessThan)),
                        token_at(ts, s2.0) != Some(Token::Operator(OperatorToken::GreaterThan)),
                    ensures
                        moved_on(*old(self), *self),
                        consumed(*old(self), *self),
                        self.recorded() == old(self).recorded(),
                        self.stream() == ts,
                        s2.0 <= state_of(*self).0,
                        reads_type_arguments(ts, s2, Seq::empty(), state_of(*self), Ok::<Seq<TypeAnnotation>, ParseError>(arguments@)),
                    decreases self.remaining(),
                {
                    let ghost cur = state_of(*self);
                    let ghost acc = arguments@;
                    let x = self.parse_type_annotation();
                    let ghost m = state_of(*self);
                    assert(reads_type(ts, cur, m, x));
                    assert(step_to(m, x));
                    let argument = match x {
                        Ok(a) => a,
                        Err(err) => {
                            let ghost xs = Err::<Seq<TypeAnnotation>, ParseError>(err);
                            assert(reads_type_arguments(ts, cur, acc, m, xs));
                            assert(reads_type_arguments(ts, s2, Seq::empty(), m, xs));
                            assert(step_to(m, xs));
                            return Err(err);
                        },
                    };
                    arguments.push(argument);
                    if !self.accept(Token::Punctuation(PunctuationToken::Comma)) {
                        assert(reads_type_arguments(ts, cur, acc, m, Ok::<Seq<TypeAnnotation>, ParseError>(arguments@)));
                        break;
                    }
                    proof {
                        let c = state_of(*self);
                        assert forall|e: ReadState, r: Result<Seq<TypeAnnotation>, ParseError>|
                            #[trigger] reads_type_arguments(ts, c, arguments@, e, r) implies reads_type_arguments(ts, s2, Seq::empty(), e, r) by {
                            assert(reads_type(ts, cur, m, x));
                            assert(step_to(m, x));
                            assert(reads_type_arguments(ts, cur, acc, e, r));
                        }
                    }
                }
                let ghost m = state_of(*self);
                let ghost xs = Ok::<Seq<TypeAnnotation>, ParseError>(arguments@);
                assert(step_to(m, xs));
            }
            self.expect_and_consume(Token::Operator(OperatorToken::GreaterThan), "Expected '>' after generic type arguments")?;
            Ok(TypeAnnotation::Generic { base: base_ident, arguments })
        } else {
            Ok(TypeAnnotation::Simple(base_ident))
        }
    }

    /// Reads the next token if it is the plain token `expected`; otherwise
    /// leaves it and reports it where the last token read was.
    fn expect_and_consume(&mut self, expected: Token, expected_msg: &str) -> (r: Result<(), ParseError>)
        requires
            old(self).wf(),
            is_plain(expected),
        ensures
            moved_on(*old(self), *final(self)),
            final(self).recorded() == old(self).recorded(),
            r is Ok <==> old(self).upcoming() == Some(expected),
            r is Ok ==> consumed(*old(self), *final(self)),
            state_of(*final(self)) == (if r is Ok { read_one(old(self).stream(), state_of(*old(self))) } else { state_of(*old(self)) }),
            r is Err ==> expect_here_error(old(self).stream(), state_of(*old(self)), expected_msg@, r),
    {
        match self.peek_token() {
            Some(token) => {
                if same_token(token, &expected) {
                    self.next_token();
                    Ok(())
                } else {
                    Err(ParseError::UnexpectedToken(debug_token(token), expected_msg.to_owned(), self.last_pos))
                }
            },
            None => Err(ParseError::UnexpectedEof(expected_msg.to_owned(), self.last_pos)),
        }
    }

    fn parse_impl_block(&mut self) -> (r: Result<Statement, ParseError>)
        requires
            old(self).wf(),
        ensures
            0 <= state_of(*old(self)).0 <= state_of(*final(self)).0 <= old(self).stream().len(),
            moved_on(*old(self), *final(self)),
            r is Ok ==> consumed(*old(self), *final(self)),
            reads_impl(old(self).stream(), read_one(old(self).stream(), state_of(*old(self))), old(self).recorded(),
                state_of(*final(self)), final(self).recorded(), r),
        decreases old(self).remaining(), 11int,
    {
        let ghost ts = self.tokens@;
        let ghost s0 = state_of(*self);
        let ghost es0 = self.errors@;
        self.next_token();
        let ghost s = state_of(*self);
        let struct_name = self.parse_identifier()?;
        let ghost s1 = state_of(*self);
        self.consume(Token::Punctuation(PunctuationToken::LeftBrace), "Expected '{' after impl <StructName>")?;
        let ghost s2 = state_of(*self);
        let mut methods: Vec<ImplMethodDefinition> = Vec::new();
        assert(all_method_parts(methods@) =~= Seq::<CallableParts>::empty());
        while !self.check_peek(&Token::Punctuation(PunctuationToken::RightBrace)) && self.peek_token().is_some()
            invariant
                moved_on(*old(self), *self),
                consumed(*old(self), *self),
                self.stream() == ts,
                s0 == state_of(*old(self)),
                es0 == old(self).recorded(),
                s == read_one(ts, s0),
                s1 == read_one(ts, s),
                s2 == read_one(ts, s1),
                token_at(ts, s.0) == Some(Token::Identifier(struct_name.name)),
                token_at(ts, s1.0) == Some(Token::Punctuation(PunctuationToken::LeftBrace)),
                0 <= s.0 < s2.0 <= state_of(*self).0,
                forall|e: ReadState, ee: Seq<ParseError>, r: Result<Seq<CallableParts>, ParseError>|
                    #[trigger] reads_impl_items(ts, state_of(*self), self.recorded(), all_method_parts(methods@), e, ee, r)
                        ==> reads_impl_items(ts, s2, es0, Seq::empty(), e, ee, r),
            decreases self.remaining(),
        {
            let ghost cur = state_of(*self);
            let ghost ce = self.recorded();
            let ghost acc = all_method_parts(methods@);
            if self.check_peek(&Token::Keyword(KeywordToken::Fn)) {
                let x = self.parse_impl_method_definition();
                let ghost m = state_of(*self);
                let ghost me = self.recorded();
                assert(parsed_to(m, me, method_result(x)));
                let method = match x {
                    Ok(md) => md,
                    Err(err) => {
                        let ghost xs = Err::<Seq<CallableParts>, ParseError>(err);
                        assert(reads_impl_items(ts, cur, ce, acc, m, me, xs));
                        assert(step_to(m, xs));
                        return Err(err);
                    },
                };
                let ghost part = method_parts(method);
                methods.push(method);
                proof {
                    assert(all_method_parts(methods@) =~= acc.push(part));
                    assert forall|e: ReadState, ee: Seq<ParseError>, r: Result<Seq<CallableParts>, ParseError>|
                        #[trigger] reads_impl_items(ts, m, me, acc.push(part), e, ee, r) implies reads_impl_items(ts, s2, es0, Seq::empty(), e, ee, r) by {
                        assert(parsed_to(m, me, Ok::<CallableParts, ParseError>(part)));
                        assert(reads_impl_items(ts, cur, ce, acc, e, ee, r));
                    }
                }
            } else {
                let found = debug_peeked(self.peek_token());
                let err = ParseError::UnexpectedToken(
                    found,
                    "Expected 'fn' for method definition inside impl block".to_owned(),
                    self.last_pos,
                );
                let ghost xs = Err::<Seq<CallableParts>, ParseError>(err);
                assert(reads_impl_items(ts, cur, ce, acc, cur, ce, xs));
                assert(step_to(cur, xs));
                return Err(err);
            }
        }
        let ghost m = state_of(*self);
        let ghost me = self.recorded();
        let ghost acc = all_method_parts(methods@);
        match self.consume(Token::Punctuation(PunctuationToken::RightBrace), "Expected '}' to end impl block") {
            Ok(()) => {},
            Err(err) => {
                let ghost xs = Err::<Seq<CallableParts>, ParseError>(err);
                assert(reads_impl_items(ts, m, me, acc, state_of(*self), me, xs));
                assert(step_to(state_of(*self), xs));
                return Err(err);
            },
        }
        let ghost xs = Ok::<Seq<CallableParts>, ParseError>(acc);
        assert(reads_impl_items(ts, m, me, acc, state_of(*self), me, xs));
        assert(step_to(state_of(*self), xs));
        Ok(Statement::ImplBlock { struct_name, methods })
    }

    fn parse_impl_method_definition(&mut self) -> (r: Result<ImplMethodDefinition, ParseError>)
        requires
            old(self).wf(),
        ensures
            0 <= state_of(*old(self)).0 <= state_of(*final(self)).0 <= old(self).stream().len(),
            moved_on(*old(self), *final(self)),
            r is Ok ==> consumed(*old(self), *final(self)),
            reads_callable(old(self).stream(), read_one(old(self).stream(), state_of(*old(self))), old(self).recorded(),
                "Expected '(' after method name"@, state_of(*final(self)), final(self).recorded(), method_result(r)),
        decreases old(self).remaining(), 11int,
    {
        let ghost ts = self.tokens@;
        let ghost es0 = self.errors@;
        self.next_token();
        let ghost s = state_of(*self);
        let name = self.parse_identifier()?;
        self.consume(Token::Punctuation(PunctuationToken::LeftParen), "Expected '(' after method name")?;
        let ghost s2 = state_of(*self);
        let ps = self.parse_parameter_list();
        let ghost m = state_of(*self);
        assert(reads_parameters(ts, s2, m, seq_result(&ps)));
        assert(step_to(m, seq_result(&ps)));
        let parameters = ps?;
        let mut return_type = None;
        if self.accept(Token::Punctuation(PunctuationToken::Arrow)) {
            let ghost m1 = state_of(*self);
            let t = self.parse_type_annotation();
            let ghost n = state_of(*self);
            assert(reads_type(ts, m1, n, t));
            assert(step_to(n, t));
            return_type = Some(t?);
        }
        let ghost q = state_of(*self);
        let b = self.parse_block_statement();
        assert(reads_block(ts, q, es0, state_of(*self), self.recorded(), b));
        assert(step_to(state_of(*self), b));
        let body = b?;
        Ok(ImplMethodDefinition { name, parameters, return_type, body })
    }
}

// ── The expression grammar ──────────────────────────────────────────────────

/// A place in the token stream: how many tokens were read, and where the last
/// one read was (errors at the end of the input are reported there).
pub type ReadState = (int, Position);

pub closed spec fn state_of(p: Parser) -> ReadState {
    (p.index as int, p.last_pos)
}

/// The token at index `i`, if there is one.
pub open spec fn token_at(ts: Seq<(Token, Position)>, i: int) -> Option<Token> {
    if 0 <= i < ts.len() {
        Some(ts[i].0)
    } else {
        None
    }
}

/// The state after reading one token (unchanged at the end of the stream).
pub open spec fn read_one(ts: Seq<(Token, Position)>, s: ReadState) -> ReadState {
    if 0 <= s.0 < ts.len() {
        (s.0 + 1, ts[s.0].1)
    } else {
        s
    }
}

/// Where a failed expectation at `s` is reported: at the next token, or at
/// the last one read when the stream is over.
pub open spec fn report_at(ts: Seq<(Token, Position)>, s: ReadState) -> Position {
    if 0 <= s.0 < ts.len() {
        ts[s.0].1
    } else {
        s.1
    }
}

/// `r` is the error of expecting `msg` at `s`.
pub open spec fn expect_error<T>(ts: Seq<(Token, Position)>, s: ReadState, msg: Seq<char>, r: Result<T, ParseError>) -> bool {
    match token_at(ts, s.0) {
        None => r matches Err(ParseError::UnexpectedEof(m, p)) && m@ == msg && p == report_at(ts, s),
        Some(t) => r matches Err(ParseError::UnexpectedToken(f, m, p))
            && f@ == token_debug(t) && m@ == msg && p == report_at(ts, s),
    }
}

/// `r` is `ParseError::Other` with `msg` at `p`.
pub open spec fn other_error<T>(r: Result<T, ParseError>, msg: Seq<char>, p: Position) -> bool {
    r matches Err(ParseError::Other(m, q)) && m@ == msg && q == p
}

/// The binary operator an operator token stands for (`!` has none).
pub open spec fn binary_of(op: OperatorToken) -> BinaryOperator {
    match op {
        OperatorToken::Plus => BinaryOperator::Add,
        OperatorToken::Minus => BinaryOperator::Subtract,
        OperatorToken::Multiply => BinaryOperator::Multiply,
        OperatorToken::Divide => BinaryOperator::Divide,
        OperatorToken::Modulo => BinaryOperator::Modulo,
        OperatorToken::Equal => BinaryOperator::Equal,
        OperatorToken::NotEqual => BinaryOperator::NotEqual,
        OperatorToken::LessThan => BinaryOperator::LessThan,
        OperatorToken::GreaterThan => BinaryOperator::GreaterThan,
        OperatorToken::LessEqual => BinaryOperator::LessEqual,
        OperatorToken::GreaterEqual => BinaryOperator::GreaterEqual,
        OperatorToken::And => BinaryOperator::And,
        OperatorToken::Or | OperatorToken::Not => BinaryOperator::Or,
    }
}

/// A list result with the list taken by its view.
pub open spec fn seq_result<T>(r: &Result<Vec<T>, ParseError>) -> Result<Seq<T>, ParseError> {
    match r {
        Ok(v) => Ok(v@),
        Err(e) => Err(*e),
    }
}

/// A sub-parse that ended at `m` with `x` (names a witness).
pub open spec fn step_to<T>(m: ReadState, x: Result<T, ParseError>) -> bool {
    0 <= m.0
}

/// A node built after a sub-parse that ended at `m` (names a witness).
pub open spec fn made(m: ReadState, e: Expression) -> bool {
    0 <= m.0
}

/// After a prefix form read from `s` ended at `m` with `x`: an error ends the
/// expression there; a value goes on with the infix forms that follow it.
pub open spec fn then_infix(ts: Seq<(Token, Position)>, s: ReadState, prec: Precedence, m: ReadState, x: Result<Expression, ParseError>, e: ReadState, r: Result<Expression, ParseError>) -> bool
    decreases ts.len() - s.0, 90int,
{
    match x {
        Err(err) => r == Err::<Expression, ParseError>(err) && e == m,
        Ok(v) => 0 <= s.0 < m.0 <= ts.len() && reads_infix(ts, m, prec, v, e, r),
    }
}

/// A list initializer as the prefix form at `s`.
pub open spec fn prefix_list(ts: Seq<(Token, Position)>, s: ReadState, prec: Precedence, e: ReadState, r: Result<Expression, ParseError>) -> bool
    decreases ts.len() - s.0, 95int,
{
    exists|m: ReadState, x: Result<Expression, ParseError>| #[trigger] step_to(m, x) && 0 <= s.0 <= m.0 <= ts.len()
        && reads_list_initializer(ts, s, m, x) && then_infix(ts, s, prec, m, x, e, r)
}

/// A dict initializer as the prefix form at `s`.
pub open spec fn prefix_dict(ts: Seq<(Token, Position)>, s: ReadState, prec: Precedence, e: ReadState, r: Result<Expression, ParseError>) -> bool
    decreases ts.len() - s.0, 95int,
{
    exists|m: ReadState, x: Result<Expression, ParseError>| #[trigger] step_to(m, x) && 0 <= s.0 <= m.0 <= ts.len()
        && reads_dict_initializer(ts, s, m, x) && then_infix(ts, s, prec, m, x, e, r)
}

/// A struct initializer of `name`, whose brace is at `s1`, as the prefix
/// form at `s`.
pub open spec fn prefix_struct(ts: Seq<(Token, Position)>, s: ReadState, s1: ReadState, name: Identifier, prec: Precedence, e: ReadState, r: Result<Expression, ParseError>) -> bool
    decreases ts.len() - s.0, 95int,
{
    exists|m: ReadState, y: Result<Expression, ParseError>| #[trigger] step_to(m, y) && 0 <= s.0 < s1.0 <= m.0 <= ts.len()
        && reads_struct_initializer(ts, s1, name, m, y) && then_infix(ts, s, prec, m, y, e, r)
}

/// `(` expression `)` as the prefix form at `s`.
pub open spec fn prefix_group(ts: Seq<(Token, Position)>, s: ReadState, prec: Precedence, e: ReadState, r: Result<Expression, ParseError>) -> bool
    decreases ts.len() - s.0, 95int,
{
    let s1 = read_one(ts, s);
    exists|m: ReadState, x: Result<Expression, ParseError>| #[trigger] step_to(m, x) && 0 <= s.0 < s1.0 <= m.0 <= ts.len()
        && reads_expression(ts, s1, Precedence::Lowest, m, x)
        && match x {
            Err(err) => r == Err::<Expression, ParseError>(err) && e == m,
            Ok(inner) => if token_at(ts, m.0) == Some(Token::Punctuation(PunctuationToken::RightParen)) {
                reads_infix(ts, read_one(ts, m), prec, inner, e, r)
            } else {
                e == read_one(ts, m) && expect_error(ts, m, "Expected ')' after grouped expression"@, r)
            },
        }
}

/// A unary operator `op` and its operand as the prefix form at `s`.
pub open spec fn prefix_unary(ts: Seq<(Token, Position)>, s: ReadState, op: UnaryOperator, prec: Precedence, e: ReadState, r: Result<Expression, ParseError>) -> bool
    decreases ts.len() - s.0, 95int,
{
    let s1 = read_one(ts, s);
    exists|m: ReadState, x: Result<Expression, ParseError>| #[trigger] step_to(m, x) && 0 <= s.0 < s1.0 <= m.0 <= ts.len()
        && reads_expression(ts, s1, Precedence::Unary, m, x)
        && match x {
            Err(err) => r == Err::<Expression, ParseError>(err) && e == m,
            Ok(operand) => reads_infix(ts, m, prec, Expression::UnaryOperation { op, operand: Box::new(operand) }, e, r),
        }
}

/// Reading an expression at precedence `prec` from `s` ends at `e` with `r`:
/// a prefix form, then the infix and postfix forms that bind more strongly
/// than `prec`.
pub open spec fn reads_expression(ts: Seq<(Token, Position)>, s: ReadState, prec: Precedence, e: ReadState, r: Result<Expression, ParseError>) -> bool
    decreases ts.len() - s.0, 100int,
{
    if !(0 <= s.0 <= ts.len()) {
        false
    } else {
        match token_at(ts, s.0) {
            None => e == s && (r matches Err(ParseError::UnexpectedEof(m, p)) && m@ == "Expected expression"@ && p == s.1),
            Some(t) => match t {
                Token::Punctuation(PunctuationToken::LeftBracket) => prefix_list(ts, s, prec, e, r),
                Token::Punctuation(PunctuationToken::LeftBrace) => prefix_dict(ts, s, prec, e, r),
                Token::Int(x) => reads_infix(ts, read_one(ts, s), prec, Expression::Literal(Literal::Int(x)), e, r),
                Token::Float(x) => reads_infix(ts, read_one(ts, s), prec, Expression::Literal(Literal::Float(x)), e, r),
                Token::String(x) => reads_infix(ts, read_one(ts, s), prec, Expression::Literal(Literal::String(x)), e, r),
                Token::Keyword(KeywordToken::True) => reads_infix(ts, read_one(ts, s), prec, Expression::Literal(Literal::Boolean(true)), e, r),
                Token::Keyword(KeywordToken::False) => reads_infix(ts, read_one(ts, s), prec, Expression::Literal(Literal::Boolean(false)), e, r),
                Token::Keyword(KeywordToken::Null) => reads_infix(ts, read_one(ts, s), prec, Expression::Literal(Literal::Null), e, r),
                Token::Identifier(x) => if token_at(ts, s.0 + 1) == Some(Token::Punctuation(PunctuationToken::LeftBrace)) {
                    prefix_struct(ts, s, read_one(ts, s), Identifier { name: x }, prec, e, r)
                } else {
                    reads_infix(ts, read_one(ts, s), prec, Expression::Identifier(Identifier { name: x }), e, r)
                },
                Token::Punctuation(PunctuationToken::LeftParen) => prefix_group(ts, s, prec, e, r),
                Token::Operator(OperatorToken::Minus) => prefix_unary(ts, s, UnaryOperator::Negate, prec, e, r),
                Token::Operator(OperatorToken::Not) => prefix_unary(ts, s, UnaryOperator::Not, prec, e, r),
                _ => e == s && (r matches Err(ParseError::UnexpectedToken(f, m, p)) && f@ == token_debug(t)
                    && m@ == "Expected literal, identifier, '(', '-', '!', '[', or '{'"@ && p == s.1),
            },
        }
    }
}

/// A binary operator `op`, read at `s`, and its right operand.
pub open spec fn infix_binary(ts: Seq<(Token, Position)>, s: ReadState, prec: Precedence, op: OperatorToken, left: Expression, e: ReadState, r: Result<Expression, ParseError>) -> bool
    decreases ts.len() - s.0, 125int,
{
    let s1 = read_one(ts, s);
    exists|m: ReadState, x: Result<Expression, ParseError>| #[trigger] step_to(m, x) && 0 <= s.0 < s1.0 <= m.0 <= ts.len()
        && reads_expression(ts, s1, operator_precedence(op), m, x)
        && match x {
            Err(err) => r == Err::<Expression, ParseError>(err) && e == m,
            Ok(right) => reads_infix(ts, m, prec,
                Expression::BinaryOperation { left: Box::new(left), op: binary_of(op), right: Box::new(right) }, e, r),
        }
}

/// An assignment `=`, read at `s`, and its value.
pub open spec fn infix_assign(ts: Seq<(Token, Position)>, s: ReadState, prec: Precedence, left: Expression, e: ReadState, r: Result<Expression, ParseError>) -> bool
    decreases ts.len() - s.0, 125int,
{
    let s1 = read_one(ts, s);
    exists|m: ReadState, x: Result<Expression, ParseError>| #[trigger] step_to(m, x) && 0 <= s.0 < s1.0 <= m.0 <= ts.len()
        && reads_expression(ts, s1, Precedence::Lowest, m, x)
        && match x {
            Err(err) => r == Err::<Expression, ParseError>(err) && e == m,
            Ok(value) => reads_infix(ts, m, prec,
                Expression::Assignment { target: Box::new(left), value: Box::new(value) }, e, r),
        }
}

/// A call: `(`, read at `s`, the arguments and `)`.
pub open spec fn infix_call(ts: Seq<(Token, Position)>, s: ReadState, prec: Precedence, left: Expression, e: ReadState, r: Result<Expression, ParseError>) -> bool
    decreases ts.len() - s.0, 125int,
{
    let s1 = read_one(ts, s);
    exists|m: ReadState, xs: Result<Seq<Expression>, ParseError>| #[trigger] step_to(m, xs) && 0 <= s.0 < s1.0 <= m.0 <= ts.len()
        && reads_expression_list(ts, s1, PunctuationToken::RightParen, m, xs)
        && match xs {
            Err(err) => r == Err::<Expression, ParseError>(err) && e == m,
            Ok(args) => if token_at(ts, m.0) == Some(Token::Punctuation(PunctuationToken::RightParen)) {
                exists|call: Expression| #[trigger] made(m, call) && (call matches Expression::FunctionCall { callee, arguments }
                    && *callee == left && arguments@ == args)
                    && reads_infix(ts, read_one(ts, m), prec, call, e, r)
            } else {
                e == read_one(ts, m) && expect_error(ts, m, "Expected ')' after function arguments"@, r)
            },
        }
}

/// An index: `[`, read at `s`, the index expression and `]`.
pub open spec fn infix_index(ts: Seq<(Token, Position)>, s: ReadState, prec: Precedence, left: Expression, e: ReadState, r: Result<Expression, ParseError>) -> bool
    decreases ts.len() - s.0, 125int,
{
    let s1 = read_one(ts, s);
    exists|m: ReadState, x: Result<Expression, ParseError>| #[trigger] step_to(m, x) && 0 <= s.0 < s1.0 <= m.0 <= ts.len()
        && reads_expression(ts, s1, Precedence::Lowest, m, x)
        && match x {
            Err(err) => r == Err::<Expression, ParseError>(err) && e == m,
            Ok(index) => if token_at(ts, m.0) == Some(Token::Punctuation(PunctuationToken::RightBracket)) {
                reads_infix(ts, read_one(ts, m), prec,
                    Expression::IndexAccess { base: Box::new(left), index: Box::new(index) }, e, r)
            } else {
                e == read_one(ts, m) && expect_error(ts, m, "Expected ']' after index expression"@, r)
            },
        }
}

/// Reading the infix and postfix forms that follow `left` from `s`, while
/// the next token binds more strongly than `prec`, ends at `e` with `r`.
pub open spec fn reads_infix(ts: Seq<(Token, Position)>, s: ReadState, prec: Precedence, left: Expression, e: ReadState, r: Result<Expression, ParseError>) -> bool
    decreases ts.len() - s.0, 130int,
{
    if !(0 <= s.0 <= ts.len()) {
        false
    } else {
        match token_at(ts, s.0) {
            None => r == Ok::<Expression, ParseError>(left) && e == s,
            Some(t) => if strength(prec) >= strength(token_precedence(t)) {
                r == Ok::<Expression, ParseError>(left) && e == s
            } else {
                match t {
                    Token::Operator(op) => if op == OperatorToken::Not {
                        e == read_one(ts, s) && other_error(r, "Not OperatorToken should be handled by prefix parser"@, ts[s.0].1)
                    } else {
                        infix_binary(ts, s, prec, op, left, e, r)
                    },
                    Token::Assignment(AssignmentToken::Assign) => infix_assign(ts, s, prec, left, e, r),
                    Token::Punctuation(PunctuationToken::LeftParen) => infix_call(ts, s, prec, left, e, r),
                    Token::Punctuation(PunctuationToken::Dot) => match token_at(ts, s.0 + 1) {
                        Some(Token::Identifier(name)) => reads_infix(ts, (s.0 + 2, ts[s.0 + 1].1), prec,
                            Expression::MemberAccess { base: Box::new(left), member: Identifier { name } }, e, r),
                        _ => e == read_one(ts, read_one(ts, s)) && expect_error(ts, read_one(ts, s), "Expected identifier"@, r),
                    },
                    Token::Punctuation(PunctuationToken::LeftBracket) => infix_index(ts, s, prec, left, e, r),
                    _ => e == read_one(ts, s) && other_error(r, infix_error_text(t), ts[s.0].1),
                }
            },
        }
    }
}

/// Reading expressions separated by commas from `s` up to the delimiter
/// `end`, which is not read (a trailing comma is allowed), ends at `e` with
/// `r`.
pub open spec fn reads_expression_list(ts: Seq<(Token, Position)>, s: ReadState, end: PunctuationToken, e: ReadState, r: Result<Seq<Expression>, ParseError>) -> bool
    decreases ts.len() - s.0, 120int,
{
    if !(0 <= s.0 <= ts.len()) {
        false
    } else if token_at(ts, s.0) == Some(Token::Punctuation(end)) {
        e == s && r == Ok::<Seq<Expression>, ParseError>(Seq::empty())
    } else {
        reads_items(ts, s, end, Seq::empty(), e, r)
    }
}

/// The items of an expression list from `s`, after the items `acc`.
pub open spec fn reads_items(ts: Seq<(Token, Position)>, s: ReadState, end: PunctuationToken, acc: Seq<Expression>, e: ReadState, r: Result<Seq<Expression>, ParseError>) -> bool
    decreases ts.len() - s.0, 110int,
{
    if !(0 <= s.0 <= ts.len()) {
        false
    } else {
        exists|m: ReadState, x: Result<Expression, ParseError>| #[trigger] step_to(m, x) && s.0 <= m.0 <= ts.len()
            && reads_expression(ts, s, Precedence::Lowest, m, x)
            && match x {
                Err(err) => r == Err::<Seq<Expression>, ParseError>(err) && e == m,
                Ok(item) => if token_at(ts, m.0) != Some(Token::Punctuation(PunctuationToken::Comma)) {
                    r == Ok::<Seq<Expression>, ParseError>(acc.push(item)) && e == m
                } else if token_at(ts, m.0 + 1) == Some(Token::Punctuation(end)) {
                    r == Ok::<Seq<Expression>, ParseError>(acc.push(item)) && e == read_one(ts, m)
                } else {
                    reads_items(ts, read_one(ts, m), end, acc.push(item), e, r)
                },
            }
    }
}

/// Reading `[` items `]` from `s` ends at `e` with `r`.
pub open spec fn reads_list_initializer(ts: Seq<(Token, Position)>, s: ReadState, e: ReadState, r: Result<Expression, ParseError>) -> bool
    decreases ts.len() - s.0, 90int,
{
    let s1 = read_one(ts, s);
    if !(0 <= s.0 <= ts.len()) {
        false
    } else if token_at(ts, s.0) != Some(Token::Punctuation(PunctuationToken::LeftBracket)) {
        e == s1 && expect_error(ts, s, "Expected '[' for list initializer"@, r)
    } else {
        exists|m: ReadState, xs: Result<Seq<Expression>, ParseError>| #[trigger] step_to(m, xs) && s1.0 <= m.0 <= ts.len()
            && reads_expression_list(ts, s1, PunctuationToken::RightBracket, m, xs)
            && match xs {
                Err(err) => r == Err::<Expression, ParseError>(err) && e == m,
                Ok(items) => e == read_one(ts, m) && if token_at(ts, m.0) == Some(Token::Punctuation(PunctuationToken::RightBracket)) {
                    r matches Ok(Expression::ListInitializer { items: v }) && v@ == items
                } else {
                    expect_error(ts, m, "Expected ']' after list items"@, r)
                },
            }
    }
}

/// Reading `{` key `:` value pairs `}` from `s` ends at `e` with `r`.
pub open spec fn reads_dict_initializer(ts: Seq<(Token, Position)>, s: ReadState, e: ReadState, r: Result<Expression, ParseError>) -> bool
    decreases ts.len() - s.0, 90int,
{
    let s1 = read_one(ts, s);
    if !(0 <= s.0 <= ts.len()) {
        false
    } else if token_at(ts, s.0) != Some(Token::Punctuation(PunctuationToken::LeftBrace)) {
        e == s1 && expect_error(ts, s, "Expected '{' for dict initializer"@, r)
    } else if token_at(ts, s1.0) == Some(Token::Punctuation(PunctuationToken::RightBrace)) {
        e == read_one(ts, s1) && (r matches Ok(Expression::DictInitializer { pairs: v }) && v@.len() == 0)
    } else {
        exists|m: ReadState, ps: Result<Seq<(Expression, Expression)>, ParseError>| #[trigger] step_to(m, ps) && s1.0 <= m.0 <= ts.len()
            && reads_pairs(ts, s1, Seq::empty(), m, ps)
            && match ps {
                Err(err) => r == Err::<Expression, ParseError>(err) && e == m,
                Ok(pairs) => e == read_one(ts, m) && if token_at(ts, m.0) == Some(Token::Punctuation(PunctuationToken::RightBrace)) {
                    r matches Ok(Expression::DictInitializer { pairs: v }) && v@ == pairs
                } else {
                    expect_error(ts, m, "Expected '}' after dict items"@, r)
                },
            }
    }
}

/// The pairs of a dict initializer from `s`, after the pairs `acc`.
pub open spec fn reads_pairs(ts: Seq<(Token, Position)>, s: ReadState, acc: Seq<(Expression, Expression)>, e: ReadState, r: Result<Seq<(Expression, Expression)>, ParseError>) -> bool
    decreases ts.len() - s.0, 110int,
{
    if !(0 <= s.0 <= ts.len()) {
        false
    } else {
        exists|m: ReadState, k: Result<Expression, ParseError>| #[trigger] step_to(m, k) && s.0 <= m.0 <= ts.len()
            && reads_expression(ts, s, Precedence::Lowest, m, k)
            && match k {
                Err(err) => r == Err::<Seq<(Expression, Expression)>, ParseError>(err) && e == m,
                Ok(key) => if token_at(ts, m.0) != Some(Token::Punctuation(PunctuationToken::Colon)) {
                    e == read_one(ts, m) && expect_error(ts, m, "Expected ':' after dict key"@, r)
                } else {
                    exists|n: ReadState, v: Result<Expression, ParseError>| #[trigger] step_to(n, v) && m.0 + 1 <= n.0 <= ts.len()
                        && reads_expression(ts, read_one(ts, m), Precedence::Lowest, n, v)
                        && match v {
                            Err(err) => r == Err::<Seq<(Expression, Expression)>, ParseError>(err) && e == n,
                            Ok(value) => if token_at(ts, n.0) != Some(Token::Punctuation(PunctuationToken::Comma)) {
                                r == Ok::<Seq<(Expression, Expression)>, ParseError>(acc.push((key, value))) && e == n
                            } else if token_at(ts, n.0 + 1) == Some(Token::Punctuation(PunctuationToken::RightBrace)) {
                                r == Ok::<Seq<(Expression, Expression)>, ParseError>(acc.push((key, value))) && e == read_one(ts, n)
                            } else {
                                reads_pairs(ts, read_one(ts, n), acc.push((key, value)), e, r)
                            },
                        }
                },
            }
    }
}

/// Reading `{` field `:` value pairs `}` of a struct named `name` from `s`
/// ends at `e` with `r`.
pub open spec fn reads_struct_initializer(ts: Seq<(Token, Position)>, s: ReadState, name: Identifier, e: ReadState, r: Result<Expression, ParseError>) -> bool
    decreases ts.len() - s.0, 90int,
{
    let s1 = read_one(ts, s);
    if !(0 <= s.0 <= ts.len()) {
        false
    } else if token_at(ts, s.0) != Some(Token::Punctuation(PunctuationToken::LeftBrace)) {
        e == s1 && expect_error(ts, s, "Expected '{' after struct name for initializer"@, r)
    } else if token_at(ts, s1.0) == Some(Token::Punctuation(PunctuationToken::RightBrace)) {
        e == read_one(ts, s1) && (r matches Ok(Expression::StructInitializer { name: n, fields: v }) && n == name && v@.len() == 0)
    } else {
        exists|m: ReadState, fs: Result<Seq<(Identifier, Expression)>, ParseError>| #[trigger] step_to(m, fs) && s1.0 <= m.0 <= ts.len()
            && reads_fields(ts, s1, Seq::empty(), m, fs)
            && match fs {
                Err(err) => r == Err::<Expression, ParseError>(err) && e == m,
                Ok(fields) => e == read_one(ts, m) && if token_at(ts, m.0) == Some(Token::Punctuation(PunctuationToken::RightBrace)) {
                    r matches Ok(Expression::StructInitializer { name: n, fields: v }) && n == name && v@ == fields
                } else {
                    expect_error(ts, m, "Expected '}' to end struct initializer"@, r)
                },
            }
    }
}

/// The fields of a struct initializer from `s`, after the fields `acc`.
pub open spec fn reads_fields(ts: Seq<(Token, Position)>, s: ReadState, acc: Seq<(Identifier, Expression)>, e: ReadState, r: Result<Seq<(Identifier, Expression)>, ParseError>) -> bool
    decreases ts.len() - s.0, 110int,
{
    let s1 = read_one(ts, s);
    let s2 = read_one(ts, s1);
    if !(0 <= s.0 <= ts.len()) {
        false
    } else {
        match token_at(ts, s.0) {
            Some(Token::Identifier(field)) => if token_at(ts, s1.0) != Some(Token::Punctuation(PunctuationToken::Colon)) {
                e == s2 && expect_error(ts, s1, "Expected ':' after field name in struct initializer"@, r)
            } else {
                exists|n: ReadState, v: Result<Expression, ParseError>| #[trigger] step_to(n, v) && s2.0 <= n.0 <= ts.len()
                    && reads_expression(ts, s2, Precedence::Lowest, n, v)
                    && match v {
                        Err(err) => r == Err::<Seq<(Identifier, Expression)>, ParseError>(err) && e == n,
                        Ok(value) => if token_at(ts, n.0) != Some(Token::Punctuation(PunctuationToken::Comma)) {
                            r == Ok::<Seq<(Identifier, Expression)>, ParseError>(acc.push((Identifier { name: field }, value))) && e == n
                        } else if token_at(ts, n.0 + 1) == Some(Token::Punctuation(PunctuationToken::RightBrace)) {
                            r == Ok::<Seq<(Identifier, Expression)>, ParseError>(acc.push((Identifier { name: field }, value)))
                                && e == read_one(ts, n)
                        } else {
                            reads_fields(ts, read_one(ts, n), acc.push((Identifier { name: field }, value)), e, r)
                        },
                    }
            },
            _ => e == s1 && expect_error(ts, s, "Expected identifier"@, r),
        }
    }
}

// ── The statement grammar ───────────────────────────────────────────────────

/// The state after an optional `;`.
pub open spec fn skip_semicolon(ts: Seq<(Token, Position)>, s: ReadState) -> ReadState {
    if token_at(ts, s.0) == Some(Token::Punctuation(PunctuationToken::Semicolon)) {
        read_one(ts, s)
    } else {
        s
    }
}

/// The state after an optional token `t`.
pub open spec fn skip_token(ts: Seq<(Token, Position)>, s: ReadState, t: Token) -> ReadState {
    if token_at(ts, s.0) == Some(t) {
        read_one(ts, s)
    } else {
        s
    }
}

/// `r` is the error of `expect_and_consume` expecting `msg` at `s`, which
/// reports where the last token read was.
pub open spec fn expect_here_error<T>(ts: Seq<(Token, Position)>, s: ReadState, msg: Seq<char>, r: Result<T, ParseError>) -> bool {
    match token_at(ts, s.0) {
        None => r matches Err(ParseError::UnexpectedEof(m, p)) && m@ == msg && p == s.1,
        Some(t) => r matches Err(ParseError::UnexpectedToken(f, m, p)) && f@ == token_debug(t) && m@ == msg && p == s.1,
    }
}

/// Reading a type annotation from `s` ends at `e` with `r`: `void`, a name,
/// or a name with type arguments in `<` `>`.
pub open spec fn reads_type(ts: Seq<(Token, Position)>, s: ReadState, e: ReadState, r: Result<TypeAnnotation, ParseError>) -> bool
    decreases ts.len() - s.0, 50int,
{
    let s1 = read_one(ts, s);
    let s2 = read_one(ts, s1);
    if !(0 <= s.0 <= ts.len()) {
        false
    } else {
        match token_at(ts, s.0) {
            Some(Token::Identifier(name)) => if name@ == "void"@ {
                e == s1 && r == Ok::<TypeAnnotation, ParseError>(TypeAnnotation::Void)
            } else if token_at(ts, s1.0) != Some(Token::Operator(OperatorToken::LessThan)) {
                e == s1 && r == Ok::<TypeAnnotation, ParseError>(TypeAnnotation::Simple(Identifier { name }))
            } else if token_at(ts, s2.0) == Some(Token::Operator(OperatorToken::GreaterThan)) {
                e == read_one(ts, s2) && (r matches Ok(TypeAnnotation::Generic { base, arguments })
                    && base == Identifier { name } && arguments@.len() == 0)
            } else {
                exists|m: ReadState, xs: Result<Seq<TypeAnnotation>, ParseError>| #[trigger] step_to(m, xs)
                    && 0 <= s.0 < s2.0 <= m.0 <= ts.len()
                    && reads_type_arguments(ts, s2, Seq::empty(), m, xs)
                    && match xs {
                        Err(err) => r == Err::<TypeAnnotation, ParseError>(err) && e == m,
                        Ok(args) => if token_at(ts, m.0) == Some(Token::Operator(OperatorToken::GreaterThan)) {
                            e == read_one(ts, m) && (r matches Ok(TypeAnnotation::Generic { base, arguments })
                                && base == Identifier { name } && arguments@ == args)
                        } else {
                            e == m && expect_here_error(ts, m, "Expected '>' after generic type arguments"@, r)
                        },
                    }
            },
            _ => e == s1 && expect_error(ts, s, "Expected identifier"@, r),
        }
    }
}

/// The type arguments from `s`, after the arguments `acc`.
pub open spec fn reads_type_arguments(ts: Seq<(Token, Position)>, s: ReadState, acc: Seq<TypeAnnotation>, e: ReadState, r: Result<Seq<TypeAnnotation>, ParseError>) -> bool
    decreases ts.len() - s.0, 55int,
{
    if !(0 <= s.0 <= ts.len()) {
        false
    } else {
        exists|m: ReadState, x: Result<TypeAnnotation, ParseError>| #[trigger] step_to(m, x) && s.0 <= m.0 <= ts.len()
            && reads_type(ts, s, m, x)
            && match x {
                Err(err) => r == Err::<Seq<TypeAnnotation>, ParseError>(err) && e == m,
                Ok(t) => if token_at(ts, m.0) == Some(Token::Punctuation(PunctuationToken::Comma)) {
                    m.0 > s.0 && reads_type_arguments(ts, read_one(ts, m), acc.push(t), e, r)
                } else {
                    r == Ok::<Seq<TypeAnnotation>, ParseError>(acc.push(t)) && e == m
                },
            }
    }
}

/// Reading a parameter list after its `(` from `s` ends at `e` with `r`; the
/// closing `)` is read.
pub open spec fn reads_parameters(ts: Seq<(Token, Position)>, s: ReadState, e: ReadState, r: Result<Seq<(Identifier, Option<TypeAnnotation>)>, ParseError>) -> bool
    decreases ts.len() - s.0, 45int,
{
    if !(0 <= s.0 <= ts.len()) {
        false
    } else if token_at(ts, s.0) == Some(Token::Punctuation(PunctuationToken::RightParen)) {
        e == read_one(ts, s) && r == Ok::<Seq<(Identifier, Option<TypeAnnotation>)>, ParseError>(Seq::empty())
    } else {
        reads_parameter_items(ts, s, Seq::empty(), e, r)
    }
}

/// The parameters from `s`, after the parameters `acc`.
pub open spec fn reads_parameter_items(ts: Seq<(Token, Position)>, s: ReadState, acc: Seq<(Identifier, Option<TypeAnnotation>)>, e: ReadState, r: Result<Seq<(Identifier, Option<TypeAnnotation>)>, ParseError>) -> bool
    decreases ts.len() - s.0, 40int,
{
    let s1 = read_one(ts, s);
    if !(0 <= s.0 <= ts.len()) {
        false
    } else {
        match token_at(ts, s.0) {
            Some(Token::Identifier(name)) => if token_at(ts, s1.0) == Some(Token::Punctuation(PunctuationToken::Colon)) {
                exists|m: ReadState, x: Result<TypeAnnotation, ParseError>| #[trigger] step_to(m, x)
                    && 0 <= s.0 < s1.0 < m.0 <= ts.len()
                    && reads_type(ts, read_one(ts, s1), m, x)
                    && match x {
                        Err(err) => r == Err::<Seq<(Identifier, Option<TypeAnnotation>)>, ParseError>(err) && e == m,
                        Ok(t) => after_parameter(ts, m, acc.push((Identifier { name }, Some(t))), e, r),
                    }
            } else {
                after_parameter(ts, s1, acc.push((Identifier { name }, None)), e, r)
            },
            _ => e == s1 && expect_error(ts, s, "Expected identifier"@, r),
        }
    }
}

/// After a parameter, at `s`: a `,` and more parameters, or the closing `)`.
pub open spec fn after_parameter(ts: Seq<(Token, Position)>, s: ReadState, acc: Seq<(Identifier, Option<TypeAnnotation>)>, e: ReadState, r: Result<Seq<(Identifier, Option<TypeAnnotation>)>, ParseError>) -> bool
    decreases ts.len() - s.0, 41int,
{
    if !(0 <= s.0 <= ts.len()) {
        false
    } else if token_at(ts, s.0) == Some(Token::Punctuation(PunctuationToken::Comma)) {
        reads_parameter_items(ts, read_one(ts, s), acc, e, r)
    } else if token_at(ts, s.0) == Some(Token::Punctuation(PunctuationToken::RightParen)) {
        e == read_one(ts, s) && r == Ok::<Seq<(Identifier, Option<TypeAnnotation>)>, ParseError>(acc)
    } else {
        e == read_one(ts, s) && expect_error(ts, s, "Expected ')' or ',' in parameter list"@, r)
    }
}

/// The parts of a function or method: name, parameters, return type, body.
pub type CallableParts = (Identifier, Seq<(Identifier, Option<TypeAnnotation>)>, Option<TypeAnnotation>, BlockStatement);

/// The parts of a method definition.
pub open spec fn method_parts(m: ImplMethodDefinition) -> CallableParts {
    (m.name, m.parameters@, m.return_type, m.body)
}

/// The parts of each method definition.
pub open spec fn all_method_parts(ms: Seq<ImplMethodDefinition>) -> Seq<CallableParts> {
    ms.map_values(|md: ImplMethodDefinition| method_parts(md))
}

/// A method definition result by its parts.
pub open spec fn method_result(r: Result<ImplMethodDefinition, ParseError>) -> Result<CallableParts, ParseError> {
    match r {
        Ok(m) => Ok(method_parts(m)),
        Err(e) => Err(e),
    }
}

/// A sub-parse that ended at `m` with the errors `me` and the result `x`
/// (names a witness).
pub open spec fn parsed_to<T>(m: ReadState, me: Seq<ParseError>, x: Result<T, ParseError>) -> bool {
    0 <= m.0
}

/// Errors recorded so far (names a witness).
pub open spec fn noted(es: Seq<ParseError>) -> bool {
    es.len() >= 0
}

/// `ee` is `es` and then `ParseError::Other` with `msg` at `p`.
pub open spec fn noted_other(es: Seq<ParseError>, ee: Seq<ParseError>, msg: Seq<char>, p: Position) -> bool {
    &&& ee.len() == es.len() + 1
    &&& ee.drop_last() == es
    &&& ee.last() matches ParseError::Other(m, q) && m@ == msg && q == p
}

/// `ee` is `es` and then `ParseError::UnexpectedToken` for `t` with `msg` at `p`.
pub open spec fn noted_unexpected(es: Seq<ParseError>, ee: Seq<ParseError>, t: Token, msg: Seq<char>, p: Position) -> bool {
    &&& ee.len() == es.len() + 1
    &&& ee.drop_last() == es
    &&& ee.last() matches ParseError::UnexpectedToken(f, m, q) && f@ == token_debug(t) && m@ == msg && q == p
}

/// A parenthesized condition from `s`: `(`, an expression, `)`; `e` is after
/// the `)`.
pub open spec fn reads_condition(ts: Seq<(Token, Position)>, s: ReadState, open_msg: Seq<char>, close_msg: Seq<char>, e: ReadState, r: Result<Expression, ParseError>) -> bool {
    let s1 = read_one(ts, s);
    if !(0 <= s.0 <= ts.len()) {
        false
    } else if token_at(ts, s.0) != Some(Token::Punctuation(PunctuationToken::LeftParen)) {
        e == s1 && expect_error(ts, s, open_msg, r)
    } else {
        exists|m: ReadState, x: Result<Expression, ParseError>| #[trigger] step_to(m, x)
            && s1.0 <= m.0 <= ts.len() && reads_expression(ts, s1, Precedence::Lowest, m, x)
            && match x {
                Err(err) => e == m && r == Err::<Expression, ParseError>(err),
                Ok(c) => if token_at(ts, m.0) == Some(Token::Punctuation(PunctuationToken::RightParen)) {
                    e == read_one(ts, m) && r == Ok::<Expression, ParseError>(c)
                } else {
                    e == read_one(ts, m) && expect_error(ts, m, close_msg, r)
                },
            }
    }
}

/// A `let` declaration after its keyword, at `s`.
pub open spec fn reads_let(ts: Seq<(Token, Position)>, s: ReadState, e: ReadState, r: Result<Statement, ParseError>) -> bool {
    let s1 = read_one(ts, s);
    if !(0 <= s.0 <= ts.len()) {
        false
    } else {
        match token_at(ts, s.0) {
            Some(Token::Identifier(name)) => if token_at(ts, s1.0) == Some(Token::Punctuation(PunctuationToken::Colon)) {
                exists|m: ReadState, t: Result<TypeAnnotation, ParseError>| #[trigger] step_to(m, t)
                    && read_one(ts, s1).0 <= m.0 <= ts.len() && reads_type(ts, read_one(ts, s1), m, t)
                    && match t {
                        Err(err) => e == m && r == Err::<Statement, ParseError>(err),
                        Ok(ty) => reads_let_initializer(ts, m, Identifier { name }, Some(ty), e, r),
                    }
            } else {
                reads_let_initializer(ts, s1, Identifier { name }, None, e, r)
            },
            _ => e == s1 && expect_error(ts, s, "Expected identifier"@, r),
        }
    }
}

/// The optional `= value` and `;` of a `let` declaration, at `s`.
pub open spec fn reads_let_initializer(ts: Seq<(Token, Position)>, s: ReadState, name: Identifier, ty: Option<TypeAnnotation>, e: ReadState, r: Result<Statement, ParseError>) -> bool {
    if token_at(ts, s.0) == Some(Token::Assignment(AssignmentToken::Assign)) {
        exists|m: ReadState, x: Result<Expression, ParseError>| #[trigger] step_to(m, x)
            && read_one(ts, s).0 <= m.0 <= ts.len() && reads_expression(ts, read_one(ts, s), Precedence::Lowest, m, x)
            && match x {
                Err(err) => e == m && r == Err::<Statement, ParseError>(err),
                Ok(v) => e == skip_semicolon(ts, m)
                    && r == Ok::<Statement, ParseError>(Statement::LetDeclaration { name, type_annotation: ty, initializer: Some(v) }),
            }
    } else {
        e == skip_semicolon(ts, s) && r == Ok::<Statement, ParseError>(Statement::LetDeclaration { name, type_annotation: ty, initializer: None })
    }
}

/// A `return` statement after its keyword, at `s`.
pub open spec fn reads_return(ts: Seq<(Token, Position)>, s: ReadState, e: ReadState, r: Result<Statement, ParseError>) -> bool {
    if token_at(ts, s.0) == Some(Token::Punctuation(PunctuationToken::Semicolon))
        || token_at(ts, s.0) == Some(Token::Punctuation(PunctuationToken::RightBrace)) {
        e == skip_semicolon(ts, s) && r == Ok::<Statement, ParseError>(Statement::ReturnStatement { value: None })
    } else {
        exists|m: ReadState, x: Result<Expression, ParseError>| #[trigger] step_to(m, x)
            && 0 <= s.0 <= m.0 <= ts.len() && reads_expression(ts, s, Precedence::Lowest, m, x)
            && match x {
                Err(err) => e == m && r == Err::<Statement, ParseError>(err),
                Ok(v) => e == skip_semicolon(ts, m) && r == Ok::<Statement, ParseError>(Statement::ReturnStatement { value: Some(v) }),
            }
    }
}

/// An expression statement at `s`: a lone `;`, or an expression and an
/// optional `;`.
pub open spec fn reads_expression_statement(ts: Seq<(Token, Position)>, s: ReadState, e: ReadState, r: Result<Statement, ParseError>) -> bool {
    if token_at(ts, s.0) == Some(Token::Punctuation(PunctuationToken::Semicolon)) {
        e == read_one(ts, s) && r == Ok::<Statement, ParseError>(Statement::ExpressionStatement(Expression::Literal(Literal::Null)))
    } else {
        exists|m: ReadState, x: Result<Expression, ParseError>| #[trigger] step_to(m, x)
            && 0 <= s.0 <= m.0 <= ts.len() && reads_expression(ts, s, Precedence::Lowest, m, x)
            && match x {
                Err(err) => e == m && r == Err::<Statement, ParseError>(err),
                Ok(v) => e == skip_semicolon(ts, m) && r == Ok::<Statement, ParseError>(Statement::ExpressionStatement(v)),
            }
    }
}

/// An `export` statement after its keyword, at `s`.
pub open spec fn reads_export(ts: Seq<(Token, Position)>, s: ReadState, e: ReadState, r: Result<Statement, ParseError>) -> bool {
    match token_at(ts, s.0) {
        Some(Token::Identifier(name)) => e == skip_semicolon(ts, read_one(ts, s))
            && r == Ok::<Statement, ParseError>(Statement::ExportStatement(ExportDeclaration::Identifier(Identifier { name }))),
        _ => e == read_one(ts, s) && expect_error(ts, s, "Expected identifier"@, r),
    }
}

/// An import statement at `s`, from its keyword `import` or `from`.
pub open spec fn reads_import(ts: Seq<(Token, Position)>, s: ReadState, e: ReadState, r: Result<Statement, ParseError>) -> bool {
    let s1 = read_one(ts, s);
    if !(0 <= s.0 <= ts.len()) {
        false
    } else if token_at(ts, s.0) == Some(Token::Keyword(KeywordToken::Import)) {
        match token_at(ts, s1.0) {
            Some(Token::String(path)) => reads_import_alias(ts, read_one(ts, s1), path, e, r),
            _ => e == read_one(ts, s1) && expect_error(ts, s1, "Expected string literal for module path after 'import'"@, r),
        }
    } else if token_at(ts, s.0) == Some(Token::Keyword(KeywordToken::From)) {
        match token_at(ts, s1.0) {
            Some(Token::String(path)) => reads_symbols_head(ts, read_one(ts, s1), ImportSource::File(path), e, r),
            _ => if token_at(ts, s1.0) matches Some(Token::Identifier(w)) && w@ == "std"@ {
                reads_symbols_head(ts, read_one(ts, s1), ImportSource::Std, e, r)
            } else {
                e == s1 && (r matches Err(ParseError::UnexpectedToken(f, m, p)) && f@ == peeked_debug(token_at(ts, s1.0))
                    && m@ == "Expected module path (string literal) or 'std' after 'from'"@ && p == s1.1)
            },
        }
    } else {
        e == s && other_error(r, "Internal error: parse_import_statement called unexpectedly"@, s.1)
    }
}

/// The optional `as alias` and `;` after a module path, at `s`.
pub open spec fn reads_import_alias(ts: Seq<(Token, Position)>, s: ReadState, path: String, e: ReadState, r: Result<Statement, ParseError>) -> bool {
    let s1 = read_one(ts, s);
    if token_at(ts, s.0) == Some(Token::Keyword(KeywordToken::As)) {
        match token_at(ts, s1.0) {
            Some(Token::Identifier(a)) => e == skip_semicolon(ts, read_one(ts, s1))
                && r == Ok::<Statement, ParseError>(Statement::ImportStatement(ImportDeclaration::ImportModule { path, alias: Some(Identifier { name: a }) })),
            _ => e == read_one(ts, s1) && expect_error(ts, s1, "Expected identifier"@, r),
        }
    } else {
        e == skip_semicolon(ts, s) && r == Ok::<Statement, ParseError>(Statement::ImportStatement(ImportDeclaration::ImportModule { path, alias: None }))
    }
}

/// `import` and the imported names after a `from` source, at `s`.
pub open spec fn reads_symbols_head(ts: Seq<(Token, Position)>, s: ReadState, source: ImportSource, e: ReadState, r: Result<Statement, ParseError>) -> bool {
    if token_at(ts, s.0) != Some(Token::Keyword(KeywordToken::Import)) {
        e == read_one(ts, s) && expect_error(ts, s, "Expected 'import' after source in 'from' statement"@, r)
    } else {
        exists|m: ReadState, xs: Result<Seq<(Identifier, Option<Identifier>)>, ParseError>| #[trigger] step_to(m, xs)
            && reads_symbols(ts, read_one(ts, s), Seq::empty(), m, xs)
            && match xs {
                Err(err) => e == m && r == Err::<Statement, ParseError>(err),
                Ok(syms) => e == skip_semicolon(ts, m) && (r matches Ok(Statement::ImportStatement(ImportDeclaration::ImportSymbols { source: src, symbols }))
                    && src == source && symbols@ == syms),
            }
    }
}

/// Imported names from `s`, after the names `acc`: each an identifier with
/// an optional `as alias`, separated by `,`.
pub open spec fn reads_symbols(ts: Seq<(Token, Position)>, s: ReadState, acc: Seq<(Identifier, Option<Identifier>)>, e: ReadState, r: Result<Seq<(Identifier, Option<Identifier>)>, ParseError>) -> bool
    decreases ts.len() - s.0, 2int,
{
    let s1 = read_one(ts, s);
    let s2 = read_one(ts, s1);
    if !(0 <= s.0 <= ts.len()) {
        false
    } else {
        match token_at(ts, s.0) {
            Some(Token::Identifier(n)) => if token_at(ts, s1.0) == Some(Token::Keyword(KeywordToken::As)) {
                match token_at(ts, s2.0) {
                    Some(Token::Identifier(a)) => after_symbol(ts, read_one(ts, s2), acc.push((Identifier { name: n }, Some(Identifier { name: a }))), e, r),
                    _ => e == read_one(ts, s2) && expect_error(ts, s2, "Expected identifier"@, r),
                }
            } else {
                after_symbol(ts, s1, acc.push((Identifier { name: n }, None)), e, r)
            },
            _ => e == s1 && expect_error(ts, s, "Expected identifier"@, r),
        }
    }
}

/// After an imported name, at `s`: a `,` and more names, or the end of them.
pub open spec fn after_symbol(ts: Seq<(Token, Position)>, s: ReadState, acc: Seq<(Identifier, Option<Identifier>)>, e: ReadState, r: Result<Seq<(Identifier, Option<Identifier>)>, ParseError>) -> bool
    decreases ts.len() - s.0, 1int,
{
    if !(0 <= s.0 <= ts.len()) {
        false
    } else if token_at(ts, s.0) == Some(Token::Punctuation(PunctuationToken::Comma)) {
        reads_symbols(ts, read_one(ts, s), acc, e, r)
    } else {
        e == s && r == Ok::<Seq<(Identifier, Option<Identifier>)>, ParseError>(acc)
    }
}

/// One statement from `s`, with the errors `es` recorded before; it ends at
/// `e` with the errors `ee` and the result `r`.
pub open spec fn reads_statement(ts: Seq<(Token, Position)>, s: ReadState, es: Seq<ParseError>, e: ReadState, ee: Seq<ParseError>, r: Result<Statement, ParseError>) -> bool
    decreases ts.len() - s.0, 20int,
{
    let s1 = read_one(ts, s);
    if !(0 <= s.0 <= ts.len()) {
        false
    } else {
        match token_at(ts, s.0) {
            Some(Token::Keyword(KeywordToken::Let)) => ee == es && reads_let(ts, s1, e, r),
            Some(Token::Keyword(KeywordToken::Return)) => ee == es && reads_return(ts, s1, e, r),
            Some(Token::Keyword(KeywordToken::Fn)) => exists|x: Result<CallableParts, ParseError>| #[trigger] step_to(e, x)
                && reads_callable(ts, s1, es, "Expected '(' after function name"@, e, ee, x)
                && match x {
                    Err(err) => r == Err::<Statement, ParseError>(err),
                    Ok(parts) => r matches Ok(Statement::FunctionDeclaration { name, parameters, return_type, body })
                        && name == parts.0 && parameters@ == parts.1 && return_type == parts.2 && body == parts.3,
                },
            Some(Token::Keyword(KeywordToken::If)) => reads_if(ts, s1, es, e, ee, r),
            Some(Token::Keyword(KeywordToken::While)) => reads_while(ts, s1, es, e, ee, r),
            Some(Token::Keyword(KeywordToken::For)) => reads_for(ts, s1, es, e, ee, r),
            Some(Token::Keyword(KeywordToken::Struct)) => reads_struct(ts, s1, es, e, ee, r),
            Some(Token::Keyword(KeywordToken::Import)) => ee == es && reads_import(ts, s, e, r),
            Some(Token::Keyword(KeywordToken::From)) => ee == es && reads_import(ts, s, e, r),
            Some(Token::Keyword(KeywordToken::Break)) => ee == es && e == skip_semicolon(ts, s1)
                && r == Ok::<Statement, ParseError>(Statement::BreakStatement),
            Some(Token::Keyword(KeywordToken::Export)) => ee == es && reads_export(ts, s1, e, r),
            Some(Token::Keyword(KeywordToken::Impl)) => reads_impl(ts, s1, es, e, ee, r),
            Some(Token::Punctuation(PunctuationToken::LeftBrace)) => e == s && ee == es
                && (r matches Err(ParseError::UnexpectedToken(f, m, p)) && f@ == token_debug(Token::Punctuation(PunctuationToken::LeftBrace))
                    && m@ == "Expected statement start KeywordToken or expression"@ && p == s.1),
            Some(Token::Punctuation(PunctuationToken::Semicolon)) => e == s1 && ee == es
                && r == Ok::<Statement, ParseError>(Statement::ExpressionStatement(Expression::Literal(Literal::Null))),
            Some(_) => ee == es && reads_expression_statement(ts, s, e, r),
            None => e == s && ee == es && (r matches Err(ParseError::UnexpectedEof(m, p)) && m@ == "Expected statement"@ && p == s.1),
        }
    }
}

/// A block from `s`: `{`, statements, `}`.
pub open spec fn reads_block(ts: Seq<(Token, Position)>, s: ReadState, es: Seq<ParseError>, e: ReadState, ee: Seq<ParseError>, r: Result<BlockStatement, ParseError>) -> bool
    decreases ts.len() - s.0, 10int,
{
    if !(0 <= s.0 <= ts.len()) {
        false
    } else if token_at(ts, s.0) != Some(Token::Punctuation(PunctuationToken::LeftBrace)) {
        e == read_one(ts, s) && ee == es && expect_error(ts, s, "Expected '{' to start block"@, r)
    } else {
        exists|xs: Result<Seq<Statement>, ParseError>| #[trigger] step_to(e, xs)
            && reads_block_items(ts, read_one(ts, s), es, Seq::empty(), e, ee, xs)
            && match xs {
                Err(err) => r == Err::<BlockStatement, ParseError>(err),
                Ok(v) => r matches Ok(b) && b.statements@ == v,
            }
    }
}

/// The statements of a block from `s`, after the statements `acc`, and the
/// closing `}`.
pub open spec fn reads_block_items(ts: Seq<(Token, Position)>, s: ReadState, es: Seq<ParseError>, acc: Seq<Statement>, e: ReadState, ee: Seq<ParseError>, r: Result<Seq<Statement>, ParseError>) -> bool
    decreases ts.len() - s.0, 25int,
{
    if !(0 <= s.0 <= ts.len()) {
        false
    } else {
        match token_at(ts, s.0) {
            None => e == s && ee == es && expect_error(ts, s, "Expected '}' to end block"@, r),
            Some(Token::Punctuation(PunctuationToken::RightBrace)) => e == read_one(ts, s) && ee == es
                && r == Ok::<Seq<Statement>, ParseError>(acc),
            Some(_) => exists|m: ReadState, me: Seq<ParseError>, x: Result<Statement, ParseError>| #[trigger] parsed_to(m, me, x)
                && s.0 <= m.0 <= ts.len() && reads_statement(ts, s, es, m, me, x)
                && match x {
                    Err(err) => e == m && ee == me && r == Err::<Seq<Statement>, ParseError>(err),
                    Ok(st) => s.0 < m.0 && reads_block_items(ts, m, me, acc.push(st), e, ee, r),
                },
        }
    }
}

/// A function or method after its `fn`, at `s`: its name, `(`, parameters,
/// an optional `-> type`, and its body.
pub open spec fn reads_callable(ts: Seq<(Token, Position)>, s: ReadState, es: Seq<ParseError>, paren_msg: Seq<char>, e: ReadState, ee: Seq<ParseError>, r: Result<CallableParts, ParseError>) -> bool
    decreases ts.len() - s.0, 16int,
{
    let s1 = read_one(ts, s);
    let s2 = read_one(ts, s1);
    if !(0 <= s.0 <= ts.len()) {
        false
    } else {
        match token_at(ts, s.0) {
            Some(Token::Identifier(name)) => if token_at(ts, s1.0) != Some(Token::Punctuation(PunctuationToken::LeftParen)) {
                e == s2 && ee == es && expect_error(ts, s1, paren_msg, r)
            } else {
                exists|m: ReadState, ps: Result<Seq<(Identifier, Option<TypeAnnotation>)>, ParseError>| #[trigger] step_to(m, ps)
                    && s.0 < s2.0 <= m.0 <= ts.len() && reads_parameters(ts, s2, m, ps)
                    && match ps {
                        Err(err) => e == m && ee == es && r == Err::<CallableParts, ParseError>(err),
                        Ok(params) => reads_signature_rest(ts, m, es, Identifier { name }, params, e, ee, r),
                    }
            },
            _ => e == s1 && ee == es && expect_error(ts, s, "Expected identifier"@, r),
        }
    }
}

/// The optional `-> type` and the body of a function, at `s`.
pub open spec fn reads_signature_rest(ts: Seq<(Token, Position)>, s: ReadState, es: Seq<ParseError>, name: Identifier, params: Seq<(Identifier, Option<TypeAnnotation>)>, e: ReadState, ee: Seq<ParseError>, r: Result<CallableParts, ParseError>) -> bool
    decreases ts.len() - s.0, 14int,
{
    if !(0 <= s.0 <= ts.len()) {
        false
    } else if token_at(ts, s.0) == Some(Token::Punctuation(PunctuationToken::Arrow)) {
        exists|m: ReadState, t: Result<TypeAnnotation, ParseError>| #[trigger] step_to(m, t)
            && s.0 < read_one(ts, s).0 <= m.0 <= ts.len() && reads_type(ts, read_one(ts, s), m, t)
            && match t {
                Err(err) => e == m && ee == es && r == Err::<CallableParts, ParseError>(err),
                Ok(ty) => reads_body(ts, m, es, name, params, Some(ty), e, ee, r),
            }
    } else {
        reads_body(ts, s, es, name, params, None, e, ee, r)
    }
}

/// The body of a function, at `s`.
pub open spec fn reads_body(ts: Seq<(Token, Position)>, s: ReadState, es: Seq<ParseError>, name: Identifier, params: Seq<(Identifier, Option<TypeAnnotation>)>, ty: Option<TypeAnnotation>, e: ReadState, ee: Seq<ParseError>, r: Result<CallableParts, ParseError>) -> bool
    decreases ts.len() - s.0, 12int,
{
    exists|b: Result<BlockStatement, ParseError>| #[trigger] step_to(e, b)
        && reads_block(ts, s, es, e, ee, b)
        && match b {
            Err(err) => r == Err::<CallableParts, ParseError>(err),
            Ok(body) => r == Ok::<CallableParts, ParseError>((name, params, ty, body)),
        }
}

/// An `if` statement after its keyword, at `s`.
pub open spec fn reads_if(ts: Seq<(Token, Position)>, s: ReadState, es: Seq<ParseError>, e: ReadState, ee: Seq<ParseError>, r: Result<Statement, ParseError>) -> bool
    decreases ts.len() - s.0, 16int,
{
    exists|m: ReadState, c: Result<Expression, ParseError>| #[trigger] step_to(m, c)
        && 0 <= s.0 <= m.0 <= ts.len()
        && reads_condition(ts, s, "Expected '(' after 'if'"@, "Expected ')' after if condition"@, m, c)
        && match c {
            Err(err) => e == m && ee == es && r == Err::<Statement, ParseError>(err),
            Ok(condition) => exists|m2: ReadState, me2: Seq<ParseError>, b: Result<BlockStatement, ParseError>| #[trigger] parsed_to(m2, me2, b)
                && s.0 < m.0 <= m2.0 <= ts.len() && reads_block(ts, m, es, m2, me2, b)
                && match b {
                    Err(err) => e == m2 && ee == me2 && r == Err::<Statement, ParseError>(err),
                    Ok(consequence) => exists|a: Result<Option<IfAlternative>, ParseError>| #[trigger] step_to(e, a)
                        && reads_if_alternative(ts, m2, me2, e, ee, a)
                        && match a {
                            Err(err) => r == Err::<Statement, ParseError>(err),
                            Ok(alternative) => r == Ok::<Statement, ParseError>(Statement::IfStatement { condition, consequence, alternative }),
                        },
                },
        }
}

/// The `elif` and `else` branches of an `if`, at `s`.
pub open spec fn reads_if_alternative(ts: Seq<(Token, Position)>, s: ReadState, es: Seq<ParseError>, e: ReadState, ee: Seq<ParseError>, r: Result<Option<IfAlternative>, ParseError>) -> bool
    decreases ts.len() - s.0, 16int,
{
    let s1 = read_one(ts, s);
    if !(0 <= s.0 <= ts.len()) {
        false
    } else if token_at(ts, s.0) == Some(Token::Keyword(KeywordToken::Elif)) {
        exists|m: ReadState, c: Result<Expression, ParseError>| #[trigger] step_to(m, c)
            && s1.0 <= m.0 <= ts.len()
            && reads_condition(ts, s1, "Expected '(' after 'elif'"@, "Expected ')' after elif condition"@, m, c)
            && match c {
                Err(err) => e == m && ee == es && r == Err::<Option<IfAlternative>, ParseError>(err),
                Ok(condition) => exists|m2: ReadState, me2: Seq<ParseError>, b: Result<BlockStatement, ParseError>| #[trigger] parsed_to(m2, me2, b)
                    && s.0 < m.0 <= m2.0 <= ts.len() && reads_block(ts, m, es, m2, me2, b)
                    && match b {
                        Err(err) => e == m2 && ee == me2 && r == Err::<Option<IfAlternative>, ParseError>(err),
                        Ok(consequence) => exists|a: Result<Option<IfAlternative>, ParseError>| #[trigger] step_to(e, a)
                            && reads_if_alternative(ts, m2, me2, e, ee, a)
                            && match a {
                                Err(err) => r == Err::<Option<IfAlternative>, ParseError>(err),
                                Ok(alt) => r matches Ok(Some(IfAlternative::Elif { condition: c2, consequence: b2, alternative }))
                                    && c2 == condition && b2 == consequence
                                    && match alt {
                                        Some(x) => alternative matches Some(bx) && *bx == x,
                                        None => alternative is None,
                                    },
                            },
                    },
            }
    } else if token_at(ts, s.0) == Some(Token::Keyword(KeywordToken::Else)) {
        exists|b: Result<BlockStatement, ParseError>| #[trigger] step_to(e, b)
            && reads_block(ts, s1, es, e, ee, b)
            && match b {
                Err(err) => r == Err::<Option<IfAlternative>, ParseError>(err),
                Ok(consequence) => r == Ok::<Option<IfAlternative>, ParseError>(Some(IfAlternative::Else { consequence })),
            }
    } else {
        e == s && ee == es && r == Ok::<Option<IfAlternative>, ParseError>(None)
    }
}

/// A `while` statement after its keyword, at `s`.
pub open spec fn reads_while(ts: Seq<(Token, Position)>, s: ReadState, es: Seq<ParseError>, e: ReadState, ee: Seq<ParseError>, r: Result<Statement, ParseError>) -> bool
    decreases ts.len() - s.0, 16int,
{
    exists|m: ReadState, c: Result<Expression, ParseError>| #[trigger] step_to(m, c)
        && 0 <= s.0 <= m.0 <= ts.len()
        && reads_condition(ts, s, "Expected '(' after 'while'"@, "Expected ')' after while condition"@, m, c)
        && match c {
            Err(err) => e == m && ee == es && r == Err::<Statement, ParseError>(err),
            Ok(condition) => exists|b: Result<BlockStatement, ParseError>| #[trigger] step_to(e, b)
                && s.0 < m.0 && reads_block(ts, m, es, e, ee, b)
                && match b {
                    Err(err) => r == Err::<Statement, ParseError>(err),
                    Ok(body) => r == Ok::<Statement, ParseError>(Statement::WhileStatement { condition, body }),
                },
        }
}

/// A `for` statement after its keyword, at `s`: a variable, `in`, the
/// iterable and the body.
pub open spec fn reads_for(ts: Seq<(Token, Position)>, s: ReadState, es: Seq<ParseError>, e: ReadState, ee: Seq<ParseError>, r: Result<Statement, ParseError>) -> bool
    decreases ts.len() - s.0, 16int,
{
    let s1 = read_one(ts, s);
    let s2 = read_one(ts, s1);
    if !(0 <= s.0 <= ts.len()) {
        false
    } else {
        match token_at(ts, s.0) {
            Some(Token::Identifier(v)) => match token_at(ts, s1.0) {
                None => e == s1 && ee == es
                    && (r matches Err(ParseError::UnexpectedEof(m, p)) && m@ == "Expected 'in' after variable in for loop"@ && p == s1.1),
                Some(t) => if !(t matches Token::Identifier(w) && w@ == "in"@) {
                    e == s2 && ee == es
                        && (r matches Err(ParseError::UnexpectedToken(f, m, p)) && f@ == token_debug(t) && m@ == "Expected 'in'"@ && p == s2.1)
                } else {
                    exists|m: ReadState, x: Result<Expression, ParseError>| #[trigger] step_to(m, x)
                        && s.0 < s2.0 <= m.0 <= ts.len() && reads_expression(ts, s2, Precedence::Lowest, m, x)
                        && match x {
                            Err(err) => e == m && ee == es && r == Err::<Statement, ParseError>(err),
                            Ok(iterable) => exists|b: Result<BlockStatement, ParseError>| #[trigger] step_to(e, b)
                                && reads_block(ts, m, es, e, ee, b)
                                && match b {
                                    Err(err) => r == Err::<Statement, ParseError>(err),
                                    Ok(body) => r == Ok::<Statement, ParseError>(Statement::ForStatement { variable: Identifier { name: v }, iterable, body }),
                                },
                        }
                },
            },
            _ => e == s1 && ee == es && expect_error(ts, s, "Expected identifier"@, r),
        }
    }
}

/// A struct declaration after its keyword, at `s`: a name and a body in
/// `{` `}`.
pub open spec fn reads_struct(ts: Seq<(Token, Position)>, s: ReadState, es: Seq<ParseError>, e: ReadState, ee: Seq<ParseError>, r: Result<Statement, ParseError>) -> bool
    decreases ts.len() - s.0, 16int,
{
    let s1 = read_one(ts, s);
    let s2 = read_one(ts, s1);
    if !(0 <= s.0 <= ts.len()) {
        false
    } else {
        match token_at(ts, s.0) {
            Some(Token::Identifier(name)) => if token_at(ts, s1.0) != Some(Token::Punctuation(PunctuationToken::LeftBrace)) {
                e == s2 && ee == es && expect_error(ts, s1, "Expected '{' after struct name"@, r)
            } else {
                exists|fs: Result<Seq<FieldDefinition>, ParseError>| #[trigger] step_to(e, fs)
                    && s.0 < s2.0 && reads_struct_body(ts, s2, es, Seq::empty(), e, ee, fs)
                    && match fs {
                        Err(err) => r == Err::<Statement, ParseError>(err),
                        Ok(fields) => r matches Ok(Statement::StructDeclaration(d))
                            && d.name == Identifier { name } && d.fields@ == fields && d.methods@.len() == 0,
                    }
            },
            _ => e == s1 && ee == es && expect_error(ts, s, "Expected identifier"@, r),
        }
    }
}

/// The members of a struct body from `s`, after the fields `acc`, and the
/// closing `}`. A method there is reported as not supported and skipped
/// with its name and body; another unexpected token is reported and skipped.
pub open spec fn reads_struct_body(ts: Seq<(Token, Position)>, s: ReadState, es: Seq<ParseError>, acc: Seq<FieldDefinition>, e: ReadState, ee: Seq<ParseError>, r: Result<Seq<FieldDefinition>, ParseError>) -> bool
    decreases ts.len() - s.0, 16int,
{
    let s1 = read_one(ts, s);
    if !(0 <= s.0 <= ts.len()) {
        false
    } else {
        match token_at(ts, s.0) {
            None => e == s && ee == es && expect_error(ts, s, "Expected '}' to end struct definition"@, r),
            Some(Token::Punctuation(PunctuationToken::RightBrace)) => e == s1 && ee == es
                && r == Ok::<Seq<FieldDefinition>, ParseError>(acc),
            Some(Token::Keyword(KeywordToken::Fn)) => {
                let s2 = if token_at(ts, s1.0) matches Some(Token::Identifier(_)) { read_one(ts, s1) } else { s1 };
                exists|es1: Seq<ParseError>| #[trigger] noted(es1)
                    && noted_other(es, es1, "Method parsing within struct not implemented yet."@, s.1)
                    && if token_at(ts, s2.0) == Some(Token::Punctuation(PunctuationToken::LeftBrace)) {
                        exists|m: ReadState, me: Seq<ParseError>, b: Result<BlockStatement, ParseError>| #[trigger] parsed_to(m, me, b)
                            && s.0 < s2.0 <= m.0 <= ts.len() && reads_block(ts, s2, es1, m, me, b)
                            && match b {
                                Ok(_) => reads_struct_body(ts, m, me, acc, e, ee, r),
                                Err(err) => reads_struct_body(ts, m, me.push(err), acc, e, ee, r),
                            }
                    } else {
                        s.0 < s2.0 && reads_struct_body(ts, s2, es1, acc, e, ee, r)
                    }
            },
            Some(Token::Identifier(fname)) => if token_at(ts, s1.0) != Some(Token::Punctuation(PunctuationToken::Colon)) {
                e == read_one(ts, s1) && ee == es && expect_error(ts, s1, "Expected ':' after field name"@, r)
            } else {
                exists|m: ReadState, t: Result<TypeAnnotation, ParseError>| #[trigger] step_to(m, t)
                    && s.0 < read_one(ts, s1).0 <= m.0 <= ts.len() && reads_type(ts, read_one(ts, s1), m, t)
                    && match t {
                        Err(err) => e == m && ee == es && r == Err::<Seq<FieldDefinition>, ParseError>(err),
                        Ok(ty) => reads_struct_body(ts, skip_token(ts, m, Token::Punctuation(PunctuationToken::Comma)), es,
                            acc.push(FieldDefinition { name: Identifier { name: fname }, type_annotation: ty }), e, ee, r),
                    }
            },
            Some(t) => exists|es1: Seq<ParseError>| #[trigger] noted(es1)
                && noted_unexpected(es, es1, t, "Expected field (identifier) or method ('fn') in struct body"@, s.1)
                && reads_struct_body(ts, s1, es1, acc, e, ee, r),
        }
    }
}

/// An `impl` block after its keyword, at `s`: a struct name and methods in
/// `{` `}`.
pub open spec fn reads_impl(ts: Seq<(Token, Position)>, s: ReadState, es: Seq<ParseError>, e: ReadState, ee: Seq<ParseError>, r: Result<Statement, ParseError>) -> bool
    decreases ts.len() - s.0, 16int,
{
    let s1 = read_one(ts, s);
    let s2 = read_one(ts, s1);
    if !(0 <= s.0 <= ts.len()) {
        false
    } else {
        match token_at(ts, s.0) {
            Some(Token::Identifier(name)) => if token_at(ts, s1.0) != Some(Token::Punctuation(PunctuationToken::LeftBrace)) {
                e == s2 && ee == es && expect_error(ts, s1, "Expected '{' after impl <StructName>"@, r)
            } else {
                exists|xs: Result<Seq<CallableParts>, ParseError>| #[trigger] step_to(e, xs)
                    && s.0 < s2.0 && reads_impl_items(ts, s2, es, Seq::empty(), e, ee, xs)
                    && match xs {
                        Err(err) => r == Err::<Statement, ParseError>(err),
                        Ok(parts) => r matches Ok(Statement::ImplBlock { struct_name, methods })
                            && struct_name == Identifier { name } && all_method_parts(methods@) == parts,
                    }
            },
            _ => e == s1 && ee == es && expect_error(ts, s, "Expected identifier"@, r),
        }
    }
}

/// The methods of an `impl` block from `s`, after the methods `acc`, and the
/// closing `}`.
pub open spec fn reads_impl_items(ts: Seq<(Token, Position)>, s: ReadState, es: Seq<ParseError>, acc: Seq<CallableParts>, e: ReadState, ee: Seq<ParseError>, r: Result<Seq<CallableParts>, ParseError>) -> bool
    decreases ts.len() - s.0, 16int,
{
    if !(0 <= s.0 <= ts.len()) {
        false
    } else {
        match token_at(ts, s.0) {
            None => e == s && ee == es && expect_error(ts, s, "Expected '}' to end impl block"@, r),
            Some(Token::Punctuation(PunctuationToken::RightBrace)) => e == read_one(ts, s) && ee == es
                && r == Ok::<Seq<CallableParts>, ParseError>(acc),
            Some(Token::Keyword(KeywordToken::Fn)) => exists|m: ReadState, me: Seq<ParseError>, x: Result<CallableParts, ParseError>| #[trigger] parsed_to(m, me, x)
                && s.0 <= m.0 <= ts.len() && reads_callable(ts, read_one(ts, s), es, "Expected '(' after method name"@, m, me, x)
                && match x {
                    Err(err) => e == m && ee == me && r == Err::<Seq<CallableParts>, ParseError>(err),
                    Ok(parts) => s.0 < m.0 && reads_impl_items(ts, m, me, acc.push(parts), e, ee, r),
                },
            Some(t) => e == s && ee == es
                && (r matches Err(ParseError::UnexpectedToken(f, m, p)) && f@ == peeked_debug(Some(t))
                    && m@ == "Expected 'fn' for method definition inside impl block"@ && p == s.1),
        }
    }
}

/// The statements of a program from `s`, after the statements `acc`: up to
/// the end of the input, or up to the first error, which is recorded.
pub open spec fn reads_program(ts: Seq<(Token, Position)>, s: ReadState, es: Seq<ParseError>, acc: Seq<Statement>, e: ReadState, ee: Seq<ParseError>, stmts: Seq<Statement>) -> bool
    decreases ts.len() - s.0,
{
    if !(0 <= s.0 <= ts.len()) {
        false
    } else if token_at(ts, s.0) is None || token_at(ts, s.0) == Some(Token::Special(SpecialToken::Eof)) {
        e == s && ee == es && stmts == acc
    } else {
        exists|m: ReadState, me: Seq<ParseError>, x: Result<Statement, ParseError>| #[trigger] parsed_to(m, me, x)
            && s.0 <= m.0 <= ts.len() && reads_statement(ts, s, es, m, me, x)
            && match x {
                Err(err) => e == m && ee == me.push(err) && stmts == acc,
                Ok(st) => s.0 < m.0 && reads_program(ts, m, me, acc.push(st), e, ee, stmts),
            }
    }
}

// ── Expressions ──────────────────────────────────────────────────────────────

impl Parser {
    /// Parses an expression whose operators bind more strongly than
    /// `precedence`: a prefix form, then infix and postfix forms while the
    /// next token binds more strongly. Assignment parses its value at the
    /// lowest precedence, so `a = b = c` groups as `a = (b = c)`.
    fn parse_expression(&mut self, precedence: Precedence) -> (r: Result<Expression, ParseError>)
        requires
            old(self).wf(),
        ensures
            0 <= state_of(*old(self)).0 <= state_of(*final(self)).0 <= old(self).stream().len(),
            moved_on(*old(self), *final(self)),
            r is Ok ==> consumed(*old(self), *final(self)),
            final(self).recorded() == old(self).recorded(),
            reads_expression(old(self).stream(), state_of(*old(self)), precedence, state_of(*final(self)), r),
        decreases old(self).remaining(), 9int,
    {
        let ghost ts = self.tokens@;
        let ghost s0 = state_of(*self);
        let ghost s1 = read_one(ts, s0);
        let mut left_expr = match self.peek_token() {
            None => {
                return Err(ParseError::UnexpectedEof("Expected expression".to_owned(), self.last_pos));
            },
            Some(Token::Punctuation(PunctuationToken::LeftBracket)) => {
                let x = self.parse_list_initializer();
                let ghost m = state_of(*self);
                assert(reads_list_initializer(ts, s0, m, x));
                assert(step_to(m, x));
                match x {
                    Ok(v) => {
                        proof {
                            assert forall|e: ReadState, r: Result<Expression, ParseError>|
                                #[trigger] reads_infix(ts, m, precedence, v, e, r) implies reads_expression(ts, s0, precedence, e, r) by {
                                assert(then_infix(ts, s0, precedence, m, x, e, r));
                                assert(prefix_list(ts, s0, precedence, e, r));
                            }
                        }
                        v
                    },
                    Err(err) => {
                        assert(then_infix(ts, s0, precedence, m, x, m, x));
                        assert(prefix_list(ts, s0, precedence, m, x));
                        return Err(err);
                    },
                }
            },
            Some(Token::Punctuation(PunctuationToken::LeftBrace)) => {
                let x = self.parse_dict_initializer();
                let ghost m = state_of(*self);
                assert(reads_dict_initializer(ts, s0, m, x));
                assert(step_to(m, x));
                match x {
                    Ok(v) => {
                        proof {
                            assert forall|e: ReadState, r: Result<Expression, ParseError>|
                                #[trigger] reads_infix(ts, m, precedence, v, e, r) implies reads_expression(ts, s0, precedence, e, r) by {
                                assert(then_infix(ts, s0, precedence, m, x, e, r));
                                assert(prefix_dict(ts, s0, precedence, e, r));
                            }
                        }
                        v
                    },
                    Err(err) => {
                        assert(then_infix(ts, s0, precedence, m, x, m, x));
                        assert(prefix_dict(ts, s0, precedence, m, x));
                        return Err(err);
                    },
                }
            },
            Some(Token::Int(_)) | Some(Token::Float(_)) | Some(Token::String(_)) | Some(Token::Keyword(KeywordToken::True))
            | Some(Token::Keyword(KeywordToken::False)) | Some(Token::Keyword(KeywordToken::Null)) | Some(Token::Identifier(_)) | Some(Token::Punctuation(PunctuationToken::LeftParen))
            | Some(Token::Operator(OperatorToken::Minus)) | Some(Token::Operator(OperatorToken::Not)) => {
                match self.next_token() {
                    Some(Token::Int(s)) => Expression::Literal(Literal::Int(s)),
                    Some(Token::Float(s)) => Expression::Literal(Literal::Float(s)),
                    Some(Token::String(s)) => Expression::Literal(Literal::String(s)),
                    Some(Token::Keyword(KeywordToken::True)) => Expression::Literal(Literal::Boolean(true)),
                    Some(Token::Keyword(KeywordToken::False)) => Expression::Literal(Literal::Boolean(false)),
                    Some(Token::Keyword(KeywordToken::Null)) => Expression::Literal(Literal::Null),
                    Some(Token::Identifier(s)) => {
                        if self.check_peek(&Token::Punctuation(PunctuationToken::LeftBrace)) {
                            let ghost name = Identifier { name: s };
                            let y = self.parse_struct_initializer(Identifier { name: s });
                            let ghost m = state_of(*self);
                            assert(reads_struct_initializer(ts, s1, name, m, y));
                            assert(step_to(m, y));
                            match y {
                                Ok(v) => {
                                    proof {
                                        assert forall|e: ReadState, r: Result<Expression, ParseError>|
                                            #[trigger] reads_infix(ts, m, precedence, v, e, r) implies reads_expression(ts, s0, precedence, e, r) by {
                                            assert(then_infix(ts, s0, precedence, m, y, e, r));
                                            assert(prefix_struct(ts, s0, s1, name, precedence, e, r));
                                        }
                                    }
                                    v
                                },
                                Err(err) => {
                                    assert(then_infix(ts, s0, precedence, m, y, m, y));
                                    assert(prefix_struct(ts, s0, s1, name, precedence, m, y));
                                    return Err(err);
                                },
                            }
                        } else {
                            Expression::Identifier(Identifier { name: s })
                        }
                    },
                    Some(Token::Punctuation(PunctuationToken::LeftParen)) => {
                        let x = self.parse_expression(Precedence::Lowest);
                        let ghost m = state_of(*self);
                        assert(reads_expression(ts, s1, Precedence::Lowest, m, x));
                        assert(step_to(m, x));
                        let inner = match x {
                            Ok(inner) => inner,
                            Err(err) => {
                                assert(prefix_group(ts, s0, precedence, m, x));
                                return Err(err);
                            },
                        };
                        match self.consume(Token::Punctuation(PunctuationToken::RightParen), "Expected ')' after grouped expression") {
                            Ok(()) => {},
                            Err(err) => {
                                let ghost c = state_of(*self);
                                assert(prefix_group(ts, s0, precedence, c, Err::<Expression, ParseError>(err)));
                                return Err(err);
                            },
                        }
                        proof {
                            let c = state_of(*self);
                            assert forall|e: ReadState, r: Result<Expression, ParseError>|
                                #[trigger] reads_infix(ts, c, precedence, inner, e, r) implies reads_expression(ts, s0, precedence, e, r) by {
                                assert(reads_expression(ts, s1, Precedence::Lowest, m, x));
                                assert(step_to(m, x));
                                assert(prefix_group(ts, s0, precedence, e, r));
                            }
                        }
                        inner
                    },
                    Some(Token::Operator(OperatorToken::Minus)) => {
                        let x = self.parse_expression(Precedence::Unary);
                        let ghost m = state_of(*self);
                        assert(reads_expression(ts, s1, Precedence::Unary, m, x));
                        assert(step_to(m, x));
                        match x {
                            Ok(operand) => {
                                let v = Expression::UnaryOperation { op: UnaryOperator::Negate, operand: Box::new(operand) };
                                proof {
                                    assert forall|e: ReadState, r: Result<Expression, ParseError>|
                                        #[trigger] reads_infix(ts, m, precedence, v, e, r) implies reads_expression(ts, s0, precedence, e, r) by {
                                        assert(reads_expression(ts, s1, Precedence::Unary, m, x));
                                        assert(step_to(m, x));
                                        assert(prefix_unary(ts, s0, UnaryOperator::Negate, precedence, e, r));
                                    }
                                }
                                v
                            },
                            Err(err) => {
                                assert(prefix_unary(ts, s0, UnaryOperator::Negate, precedence, m, x));
                                return Err(err);
                            },
                        }
                    },
                    Some(Token::Operator(OperatorToken::Not)) => {
                        let x = self.parse_expression(Precedence::Unary);
                        let ghost m = state_of(*self);
                        assert(reads_expression(ts, s1, Precedence::Unary, m, x));
                        assert(step_to(m, x));
                        match x {
                            Ok(operand) => {
                                let v = Expression::UnaryOperation { op: UnaryOperator::Not, operand: Box::new(operand) };
                                proof {
                                    assert forall|e: ReadState, r: Result<Expression, ParseError>|
                                        #[trigger] reads_infix(ts, m, precedence, v, e, r) implies reads_expression(ts, s0, precedence, e, r) by {
                                        assert(reads_expression(ts, s1, Precedence::Unary, m, x));
                                        assert(step_to(m, x));
                                        assert(prefix_unary(ts, s0, UnaryOperator::Not, precedence, e, r));
                                    }
                                }
                                v
                            },
                            Err(err) => {
                                assert(prefix_unary(ts, s0, UnaryOperator::Not, precedence, m, x));
                                return Err(err);
                            },
                        }
                    },
                    _ => {
                        return Err(ParseError::Other("Token mismatch after peek".to_owned(), self.last_pos));
                    },
                }
            },
            Some(other) => {
                return Err(ParseError::UnexpectedToken(
                    debug_token(other),
                    "Expected literal, identifier, '(', '-', '!', '[', or '{'".to_owned(),
                    self.last_pos,
                ));
            },
        };
        loop
            invariant
                moved_on(*old(self), *self),
                consumed(*old(self), *self),
                self.recorded() == old(self).recorded(),
                self.stream() == ts,
                self.tokens@ == ts,
                s0 == state_of(*old(self)),
                0 <= s0.0 < state_of(*self).0 <= ts.len(),
                forall|e: ReadState, r: Result<Expression, ParseError>|
                    #[trigger] reads_infix(ts, state_of(*self), precedence, left_expr, e, r) ==> reads_expression(ts, s0, precedence, e, r),
            ensures
                moved_on(*old(self), *self),
                consumed(*old(self), *self),
                self.recorded() == old(self).recorded(),
                0 <= s0.0 < state_of(*self).0 <= ts.len(),
                reads_expression(ts, s0, precedence, state_of(*self), Ok::<Expression, ParseError>(left_expr)),
            decreases self.remaining(),
        {
            let ghost cur = state_of(*self);
            let ghost left0 = left_expr;
            let ghost c1 = read_one(ts, cur);
            let peeked_precedence = match self.peek_token() {
                Some(t) => get_peeked_token_precedence(t),
                None => {
                    assert(reads_infix(ts, cur, precedence, left0, cur, Ok::<Expression, ParseError>(left0)));
                    break;
                },
            };
            if at_least(precedence, peeked_precedence) {
                assert(reads_infix(ts, cur, precedence, left0, cur, Ok::<Expression, ParseError>(left0)));
                break;
            }
            match self.next_token() {
                Some(Token::Operator(op)) => {
                    let binary_op = match op {
                        OperatorToken::Plus => BinaryOperator::Add,
                        OperatorToken::Minus => BinaryOperator::Subtract,
                        OperatorToken::Multiply => BinaryOperator::Multiply,
                        OperatorToken::Divide => BinaryOperator::Divide,
                        OperatorToken::Modulo => BinaryOperator::Modulo,
                        OperatorToken::Equal => BinaryOperator::Equal,
                        OperatorToken::NotEqual => BinaryOperator::NotEqual,
                        OperatorToken::LessThan => BinaryOperator::LessThan,
                        OperatorToken::GreaterThan => BinaryOperator::GreaterThan,
                        OperatorToken::LessEqual => BinaryOperator::LessEqual,
                        OperatorToken::GreaterEqual => BinaryOperator::GreaterEqual,
                        OperatorToken::And => BinaryOperator::And,
                        OperatorToken::Or => BinaryOperator::Or,
                        OperatorToken::Not => {
                            let err = Err(ParseError::Other(
                                "Not OperatorToken should be handled by prefix parser".to_owned(),
                                self.last_pos,
                            ));
                            assert(reads_infix(ts, cur, precedence, left0, state_of(*self), err));
                            return err;
                        },
                    };
                    assert(binary_op == binary_of(op));
                    let x = self.parse_expression(peeked_precedence);
                    let ghost m = state_of(*self);
                    assert(reads_expression(ts, c1, peeked_precedence, m, x));
                    assert(step_to(m, x));
                    match x {
                        Ok(right_expr) => {
                            left_expr = Expression::BinaryOperation { left: Box::new(left_expr), op: binary_op, right: Box::new(right_expr) };
                            proof {
                                assert forall|e: ReadState, r: Result<Expression, ParseError>|
                                    #[trigger] reads_infix(ts, m, precedence, left_expr, e, r) implies reads_expression(ts, s0, precedence, e, r) by {
                                    assert(reads_expression(ts, c1, peeked_precedence, m, x));
                                    assert(step_to(m, x));
                                    assert(infix_binary(ts, cur, precedence, op, left0, e, r));
                                    assert(reads_infix(ts, cur, precedence, left0, e, r));
                                }
                            }
                        },
                        Err(err) => {
                            assert(infix_binary(ts, cur, precedence, op, left0, m, x));
                            assert(reads_infix(ts, cur, precedence, left0, m, x));
                            return Err(err);
                        },
                    }
                },
                Some(Token::Assignment(AssignmentToken::Assign)) => {
                    let x = self.parse_expression(Precedence::Lowest);
                    let ghost m = state_of(*self);
                    assert(reads_expression(ts, c1, Precedence::Lowest, m, x));
                    assert(step_to(m, x));
                    match x {
                        Ok(value) => {
                            left_expr = Expression::Assignment { target: Box::new(left_expr), value: Box::new(value) };
                            proof {
                                assert forall|e: ReadState, r: Result<Expression, ParseError>|
                                    #[trigger] reads_infix(ts, m, precedence, left_expr, e, r) implies reads_expression(ts, s0, precedence, e, r) by {
                                    assert(reads_expression(ts, c1, Precedence::Lowest, m, x));
                                    assert(step_to(m, x));
                                    assert(infix_assign(ts, cur, precedence, left0, e, r));
                                    assert(reads_infix(ts, cur, precedence, left0, e, r));
                                }
                            }
                        },
                        Err(err) => {
                            assert(infix_assign(ts, cur, precedence, left0, m, x));
                            assert(reads_infix(ts, cur, precedence, left0, m, x));
                            return Err(err);
                        },
                    }
                },
                Some(Token::Punctuation(PunctuationToken::LeftParen)) => {
                    let xs = self.parse_expression_list(PunctuationToken::RightParen);
                    let ghost m = state_of(*self);
                    let ghost sx = seq_result(&xs);
                    assert(reads_expression_list(ts, c1, PunctuationToken::RightParen, m, sx));
                    assert(step_to(m, sx));
                    let arguments = match xs {
                        Ok(arguments) => arguments,
                        Err(err) => {
                            assert(infix_call(ts, cur, precedence, left0, m, Err::<Expression, ParseError>(err)));
                            assert(reads_infix(ts, cur, precedence, left0, m, Err::<Expression, ParseError>(err)));
                            return Err(err);
                        },
                    };
                    match self.consume(Token::Punctuation(PunctuationToken::RightParen), "Expected ')' after function arguments") {
                        Ok(()) => {},
                        Err(err) => {
                            let ghost c = state_of(*self);
                            assert(infix_call(ts, cur, precedence, left0, c, Err::<Expression, ParseError>(err)));
                            assert(reads_infix(ts, cur, precedence, left0, c, Err::<Expression, ParseError>(err)));
                            return Err(err);
                        },
                    }
                    let ghost c = state_of(*self);
                    left_expr = Expression::FunctionCall { callee: Box::new(left_expr), arguments };
                    assert(made(m, left_expr));
                    proof {
                        assert forall|e: ReadState, r: Result<Expression, ParseError>|
                            #[trigger] reads_infix(ts, c, precedence, left_expr, e, r) implies reads_expression(ts, s0, precedence, e, r) by {
                            assert(reads_expression_list(ts, c1, PunctuationToken::RightParen, m, sx));
                            assert(step_to(m, sx));
                            assert(infix_call(ts, cur, precedence, left0, e, r));
                            assert(reads_infix(ts, cur, precedence, left0, e, r));
                        }
                    }
                },
                Some(Token::Punctuation(PunctuationToken::Dot)) => {
                    match self.parse_identifier() {
                        Ok(member) => {
                            left_expr = Expression::MemberAccess { base: Box::new(left_expr), member };
                            proof {
                                let c = state_of(*self);
                                assert forall|e: ReadState, r: Result<Expression, ParseError>|
                                    #[trigger] reads_infix(ts, c, precedence, left_expr, e, r) implies reads_expression(ts, s0, precedence, e, r) by {
                                    assert(reads_infix(ts, cur, precedence, left0, e, r));
                                }
                            }
                        },
                        Err(err) => {
                            assert(reads_infix(ts, cur, precedence, left0, state_of(*self), Err::<Expression, ParseError>(err)));
                            return Err(err);
                        },
                    }
                },
                Some(Token::Punctuation(PunctuationToken::LeftBracket)) => {
                    let x = self.parse_expression(Precedence::Lowest);
                    let ghost m = state_of(*self);
                    assert(reads_expression(ts, c1, Precedence::Lowest, m, x));
                    assert(step_to(m, x));
                    let index = match x {
                        Ok(index) => index,
                        Err(err) => {
                            assert(infix_index(ts, cur, precedence, left0, m, x));
                            assert(reads_infix(ts, cur, precedence, left0, m, x));
                            return Err(err);
                        },
                    };
                    match self.consume(Token::Punctuation(PunctuationToken::RightBracket), "Expected ']' after index expression") {
                        Ok(()) => {},
                        Err(err) => {
                            let ghost c = state_of(*self);
                            assert(infix_index(ts, cur, precedence, left0, c, Err::<Expression, ParseError>(err)));
                            assert(reads_infix(ts, cur, precedence, left0, c, Err::<Expression, ParseError>(err)));
                            return Err(err);
                        },
                    }
                    let ghost c = state_of(*self);
                    left_expr = Expression::IndexAccess { base: Box::new(left_expr), index: Box::new(index) };
                    proof {
                        assert forall|e: ReadState, r: Result<Expression, ParseError>|
                            #[trigger] reads_infix(ts, c, precedence, left_expr, e, r) implies reads_expression(ts, s0, precedence, e, r) by {
                            assert(reads_expression(ts, c1, Precedence::Lowest, m, x));
                            assert(step_to(m, x));
                            assert(infix_index(ts, cur, precedence, left0, e, r));
                            assert(reads_infix(ts, cur, precedence, left0, e, r));
                        }
                    }
                },
                Some(other) => {
                    let err = Err(ParseError::Other(infix_error_message(&other), self.last_pos));
                    assert(reads_infix(ts, cur, precedence, left0, state_of(*self), err));
                    return err;
                },
                None => {
                    assert(reads_infix(ts, cur, precedence, left0, cur, Ok::<Expression, ParseError>(left0)));
                    break;
                },
            }
        }
        Ok(left_expr)
    }

    /// Parses comma-separated expressions up to the delimiter `end`, which
    /// is left for the caller; a trailing comma is allowed.
    fn parse_expression_list(&mut self, end_delimiter: PunctuationToken) -> (r: Result<Vec<Expression>, ParseError>)
        requires
            old(self).wf(),
        ensures
            0 <= state_of(*old(self)).0 <= state_of(*final(self)).0 <= old(self).stream().len(),
            moved_on(*old(self), *final(self)),
            final(self).recorded() == old(self).recorded(),
            reads_expression_list(old(self).stream(), state_of(*old(self)), end_delimiter, state_of(*final(self)), seq_result(&r)),
        decreases old(self).remaining(), 10int,
    {
        let ghost ts = self.tokens@;
        let ghost s0 = state_of(*self);
        let mut list: Vec<Expression> = Vec::new();
        let end_token = Token::Punctuation(end_delimiter);
        if self.check_peek(&end_token) {
            return Ok(list);
        }
        loop
            invariant
                moved_on(*old(self), *self),
                self.recorded() == old(self).recorded(),
                self.stream() == ts,
                s0 == state_of(*old(self)),
                end_token == Token::Punctuation(end_delimiter),
                list@.len() > 0 ==> consumed(*old(self), *self),
                forall|e: ReadState, r: Result<Seq<Expression>, ParseError>|
                    #[trigger] reads_items(ts, state_of(*self), end_delimiter, list@, e, r) ==> reads_expression_list(ts, s0, end_delimiter, e, r),
            decreases self.remaining(),
        {
            let ghost cur = state_of(*self);
            let ghost acc = list@;
            let x = self.parse_expression(Precedence::Lowest);
            let ghost m = state_of(*self);
            assert(reads_expression(ts, cur, Precedence::Lowest, m, x));
            assert(step_to(m, x));
            let item = match x {
                Ok(item) => item,
                Err(err) => {
                    assert(0 <= cur.0);
                    assert(cur.0 <= m.0);
                    assert(m.0 <= ts.len());
                    assert(x == Err::<Expression, ParseError>(err));
                    assert(reads_items(ts, cur, end_delimiter, acc, m, Err::<Seq<Expression>, ParseError>(err)));
                    return Err(err);
                },
            };
            list.push(item);
            if !self.accept(Token::Punctuation(PunctuationToken::Comma)) {
                assert(reads_items(ts, cur, end_delimiter, acc, m, Ok::<Seq<Expression>, ParseError>(list@)));
                return Ok(list);
            }
            if self.check_peek(&end_token) {
                assert(reads_items(ts, cur, end_delimiter, acc, state_of(*self), Ok::<Seq<Expression>, ParseError>(list@)));
                return Ok(list);
            }
            proof {
                let c = state_of(*self);
                assert forall|e: ReadState, r: Result<Seq<Expression>, ParseError>|
                    #[trigger] reads_items(ts, c, end_delimiter, list@, e, r) implies reads_expression_list(ts, s0, end_delimiter, e, r) by {
                    assert(reads_items(ts, cur, end_delimiter, acc, e, r));
                }
            }
        }
    }

    fn parse_list_initializer(&mut self) -> (r: Result<Expression, ParseError>)
        requires
            old(self).wf(),
        ensures
            0 <= state_of(*old(self)).0 <= state_of(*final(self)).0 <= old(self).stream().len(),
            moved_on(*old(self), *final(self)),
            r is Ok ==> consumed(*old(self), *final(self)),
            final(self).recorded() == old(self).recorded(),
            reads_list_initializer(old(self).stream(), state_of(*old(self)), state_of(*final(self)), r),
        decreases old(self).remaining(), 8int,
    {
        let ghost ts = self.tokens@;
        let ghost s0 = state_of(*self);
        self.consume(Token::Punctuation(PunctuationToken::LeftBracket), "Expected '[' for list initializer")?;
        let ghost s1 = state_of(*self);
        let xs = self.parse_expression_list(PunctuationToken::RightBracket);
        let ghost m = state_of(*self);
        let ghost sx = seq_result(&xs);
        assert(reads_expression_list(ts, s1, PunctuationToken::RightBracket, m, sx));
        assert(step_to(m, sx));
        let items = xs?;
        self.consume(Token::Punctuation(PunctuationToken::RightBracket), "Expected ']' after list items")?;
        Ok(Expression::ListInitializer { items })
    }

    fn parse_dict_initializer(&mut self) -> (r: Result<Expression, ParseError>)
        requires
            old(self).wf(),
        ensures
            0 <= state_of(*old(self)).0 <= state_of(*final(self)).0 <= old(self).stream().len(),
            moved_on(*old(self), *final(self)),
            r is Ok ==> consumed(*old(self), *final(self)),
            final(self).recorded() == old(self).recorded(),
            reads_dict_initializer(old(self).stream(), state_of(*old(self)), state_of(*final(self)), r),
        decreases old(self).remaining(), 8int,
    {
        let ghost ts = self.tokens@;
        let ghost s0 = state_of(*self);
        self.consume(Token::Punctuation(PunctuationToken::LeftBrace), "Expected '{' for dict initializer")?;
        let ghost s1 = state_of(*self);
        let mut pairs: Vec<(Expression, Expression)> = Vec::new();
        if !self.check_peek(&Token::Punctuation(PunctuationToken::RightBrace)) {
            loop
                invariant_except_break
                    forall|e: ReadState, r: Result<Seq<(Expression, Expression)>, ParseError>|
                        #[trigger] reads_pairs(ts, state_of(*self), pairs@, e, r) ==> reads_pairs(ts, s1, Seq::empty(), e, r),
                invariant
                    moved_on(*old(self), *self),
                    consumed(*old(self), *self),
                    self.recorded() == old(self).recorded(),
                    self.stream() == ts,
                    s0 == state_of(*old(self)),
                    s1 == read_one(ts, s0),
                    token_at(ts, s0.0) == Some(Token::Punctuation(PunctuationToken::LeftBrace)),
                    token_at(ts, s1.0) != Some(Token::Punctuation(PunctuationToken::RightBrace)),
                    s1.0 <= state_of(*self).0,
                ensures
                    moved_on(*old(self), *self),
                    consumed(*old(self), *self),
                    self.recorded() == old(self).recorded(),
                    self.stream() == ts,
                    s1.0 <= state_of(*self).0,
                    reads_pairs(ts, s1, Seq::empty(), state_of(*self), Ok::<Seq<(Expression, Expression)>, ParseError>(pairs@)),
                decreases self.remaining(),
            {
                let ghost cur = state_of(*self);
                let ghost acc = pairs@;
                let k = self.parse_expression(Precedence::Lowest);
                let ghost m = state_of(*self);
                assert(reads_expression(ts, cur, Precedence::Lowest, m, k));
                assert(step_to(m, k));
                let key = match k {
                    Ok(key) => key,
                    Err(err) => {
                        assert(reads_pairs(ts, cur, acc, m, Err::<Seq<(Expression, Expression)>, ParseError>(err)));
                        assert(reads_pairs(ts, s1, Seq::empty(), m, Err::<Seq<(Expression, Expression)>, ParseError>(err)));
                        assert(step_to(m, Err::<Seq<(Expression, Expression)>, ParseError>(err)));
                        return Err(err);
                    },
                };
                match self.consume(Token::Punctuation(PunctuationToken::Colon), "Expected ':' after dict key") {
                    Ok(()) => {},
                    Err(err) => {
                        let ghost c = state_of(*self);
                        assert(reads_pairs(ts, cur, acc, c, Err::<Seq<(Expression, Expression)>, ParseError>(err)));
                        assert(reads_pairs(ts, s1, Seq::empty(), c, Err::<Seq<(Expression, Expression)>, ParseError>(err)));
                        assert(step_to(c, Err::<Seq<(Expression, Expression)>, ParseError>(err)));
                        return Err(err);
                    },
                }
                let ghost m1 = state_of(*self);
                let v = self.parse_expression(Precedence::Lowest);
                let ghost n = state_of(*self);
                assert(reads_expression(ts, m1, Precedence::Lowest, n, v));
                assert(step_to(n, v));
                let value = match v {
                    Ok(value) => value,
                    Err(err) => {
                        assert(reads_pairs(ts, cur, acc, n, Err::<Seq<(Expression, Expression)>, ParseError>(err)));
                        assert(reads_pairs(ts, s1, Seq::empty(), n, Err::<Seq<(Expression, Expression)>, ParseError>(err)));
                        assert(step_to(n, Err::<Seq<(Expression, Expression)>, ParseError>(err)));
                        return Err(err);
                    },
                };
                pairs.push((key, value));
                if !self.accept(Token::Punctuation(PunctuationToken::Comma)) {
                    assert(reads_pairs(ts, cur, acc, n, Ok::<Seq<(Expression, Expression)>, ParseError>(pairs@)));
                    break;
                }
                if self.check_peek(&Token::Punctuation(PunctuationToken::RightBrace)) {
                    assert(reads_pairs(ts, cur, acc, state_of(*self), Ok::<Seq<(Expression, Expression)>, ParseError>(pairs@)));
                    break;
                }
                proof {
                    let c = state_of(*self);
                    assert forall|e: ReadState, r: Result<Seq<(Expression, Expression)>, ParseError>|
                        #[trigger] reads_pairs(ts, c, pairs@, e, r) implies reads_pairs(ts, s1, Seq::empty(), e, r) by {
                        assert(reads_expression(ts, cur, Precedence::Lowest, m, k));
                        assert(step_to(m, k));
                        assert(reads_expression(ts, m1, Precedence::Lowest, n, v));
                        assert(step_to(n, v));
                        assert(reads_pairs(ts, cur, acc, e, r));
                    }
                }
            }
            let ghost m = state_of(*self);
            let ghost ps = Ok::<Seq<(Expression, Expression)>, ParseError>(pairs@);
            assert(reads_pairs(ts, s1, Seq::empty(), m, ps));
            assert(step_to(m, ps));
            match self.consume(Token::Punctuation(PunctuationToken::RightBrace), "Expected '}' after dict items") {
                Ok(()) => {},
                Err(err) => {
                    return Err(err);
                },
            }
            return Ok(Expression::DictInitializer { pairs });
        }
        self.consume(Token::Punctuation(PunctuationToken::RightBrace), "Expected '}' after dict items")?;
        Ok(Expression::DictInitializer { pairs })
    }

    fn parse_struct_initializer(&mut self, name: Identifier) -> (r: Result<Expression, ParseError>)
        requires
            old(self).wf(),
        ensures
            0 <= state_of(*old(self)).0 <= state_of(*final(self)).0 <= old(self).stream().len(),
            moved_on(*old(self), *final(self)),
            r is Ok ==> consumed(*old(self), *final(self)),
            final(self).recorded() == old(self).recorded(),
            reads_struct_initializer(old(self).stream(), state_of(*old(self)), name, state_of(*final(self)), r),
        decreases old(self).remaining(), 8int,
    {
        let ghost ts = self.tokens@;
        let ghost s0 = state_of(*self);
        self.consume(Token::Punctuation(PunctuationToken::LeftBrace), "Expected '{' after struct name for initializer")?;
        let ghost s1 = state_of(*self);
        let mut fields: Vec<(Identifier, Expression)> = Vec::new();
        if !self.check_peek(&Token::Punctuation(PunctuationToken::RightBrace)) {
            loop
                invariant_except_break
                    forall|e: ReadState, r: Result<Seq<(Identifier, Expression)>, ParseError>|
                        #[trigger] reads_fields(ts, state_of(*self), fields@, e, r) ==> reads_fields(ts, s1, Seq::empty(), e, r),
                invariant
                    moved_on(*old(self), *self),
                    consumed(*old(self), *self),
                    self.recorded() == old(self).recorded(),
                    self.stream() == ts,
                    s0 == state_of(*old(self)),
                    s1 == read_one(ts, s0),
                    token_at(ts, s0.0) == Some(Token::Punctuation(PunctuationToken::LeftBrace)),
                    token_at(ts, s1.0) != Some(Token::Punctuation(PunctuationToken::RightBrace)),
                    s1.0 <= state_of(*self).0,
                ensures
                    moved_on(*old(self), *self),
                    consumed(*old(self), *self),
                    self.recorded() == old(self).recorded(),
                    self.stream() == ts,
                    s1.0 <= state_of(*self).0,
                    reads_fields(ts, s1, Seq::empty(), state_of(*self), Ok::<Seq<(Identifier, Expression)>, ParseError>(fields@)),
                decreases self.remaining(),
            {
                let ghost cur = state_of(*self);
                let ghost acc = fields@;
                let field_name = match self.parse_identifier() {
                    Ok(field_name) => field_name,
                    Err(err) => {
                        let ghost c = state_of(*self);
                        assert(reads_fields(ts, cur, acc, c, Err::<Seq<(Identifier, Expression)>, ParseError>(err)));
                        assert(reads_fields(ts, s1, Seq::empty(), c, Err::<Seq<(Identifier, Expression)>, ParseError>(err)));
                        assert(step_to(c, Err::<Seq<(Identifier, Expression)>, ParseError>(err)));
                        return Err(err);
                    },
                };
                match self.consume(Token::Punctuation(PunctuationToken::Colon), "Expected ':' after field name in struct initializer") {
                    Ok(()) => {},
                    Err(err) => {
                        let ghost c = state_of(*self);
                        assert(reads_fields(ts, cur, acc, c, Err::<Seq<(Identifier, Expression)>, ParseError>(err)));
                        assert(reads_fields(ts, s1, Seq::empty(), c, Err::<Seq<(Identifier, Expression)>, ParseError>(err)));
                        assert(step_to(c, Err::<Seq<(Identifier, Expression)>, ParseError>(err)));
                        return Err(err);
                    },
                }
                let ghost m = state_of(*self);
                let v = self.parse_expression(Precedence::Lowest);
                let ghost n = state_of(*self);
                assert(reads_expression(ts, m, Precedence::Lowest, n, v));
                assert(step_to(n, v));
                let field_value = match v {
                    Ok(value) => value,
                    Err(err) => {
                        assert(reads_fields(ts, cur, acc, n, Err::<Seq<(Identifier, Expression)>, ParseError>(err)));
                        assert(reads_fields(ts, s1, Seq::empty(), n, Err::<Seq<(Identifier, Expression)>, ParseError>(err)));
                        assert(step_to(n, Err::<Seq<(Identifier, Expression)>, ParseError>(err)));
                        return Err(err);
                    },
                };
                fields.push((field_name, field_value));
                if !self.accept(Token::Punctuation(PunctuationToken::Comma)) {
                    assert(reads_fields(ts, cur, acc, n, Ok::<Seq<(Identifier, Expression)>, ParseError>(fields@)));
                    break;
                }
                if self.check_peek(&Token::Punctuation(PunctuationToken::RightBrace)) {
                    assert(reads_fields(ts, cur, acc, state_of(*self), Ok::<Seq<(Identifier, Expression)>, ParseError>(fields@)));
                    break;
                }
                proof {
                    let c = state_of(*self);
                    assert forall|e: ReadState, r: Result<Seq<(Identifier, Expression)>, ParseError>|
                        #[trigger] reads_fields(ts, c, fields@, e, r) implies reads_fields(ts, s1, Seq::empty(), e, r) by {
                        assert(reads_expression(ts, m, Precedence::Lowest, n, v));
                        assert(step_to(n, v));
                        assert(reads_fields(ts, cur, acc, e, r));
                    }
                }
            }
            let ghost m = state_of(*self);
            let ghost fs = Ok::<Seq<(Identifier, Expression)>, ParseError>(fields@);
            assert(reads_fields(ts, s1, Seq::empty(), m, fs));
            assert(step_to(m, fs));
            match self.consume(Token::Punctuation(PunctuationToken::RightBrace), "Expected '}' to end struct initializer") {
                Ok(()) => {},
                Err(err) => {
                    return Err(err);
                },
            }
            return Ok(Expression::StructInitializer { name, fields });
        }
        self.consume(Token::Punctuation(PunctuationToken::RightBrace), "Expected '}' to end struct initializer")?;
        Ok(Expression::StructInitializer { name, fields })
    }
}


// ── Operator precedence laws ─────────────────────────────────────────────────

/// `op` is `+` or `-`, read as the binary operator `b`.
pub open spec fn additive(op: OperatorToken, b: BinaryOperator) -> bool {
    ||| op == OperatorToken::Plus && b == BinaryOperator::Add
    ||| op == OperatorToken::Minus && b == BinaryOperator::Subtract
}

/// `op` is `*`, `/` or `%`, read as the binary operator `b`.
pub open spec fn multiplicative(op: OperatorToken, b: BinaryOperator) -> bool {
    ||| op == OperatorToken::Multiply && b == BinaryOperator::Multiply
    ||| op == OperatorToken::Divide && b == BinaryOperator::Divide
    ||| op == OperatorToken::Modulo && b == BinaryOperator::Modulo
}

/// The tokens of `ts` from index `i` on are `x op y op2 z` with integer
/// literals `x`, `y`, `z`, and the expression ends after `z`: the stream ends
/// there or the next token is no operator, no assignment and nothing that
/// starts a call, an index or a member access (such as `;`).
pub open spec fn three_ints(ts: Seq<(Token, Position)>, i: int, x: String, op: OperatorToken, y: String, op2: OperatorToken, z: String) -> bool {
    &&& 0 <= i
    &&& i + 5 <= ts.len()
    &&& ts[i].0 == Token::Int(x)
    &&& ts[i + 1].0 == Token::Operator(op)
    &&& ts[i + 2].0 == Token::Int(y)
    &&& ts[i + 3].0 == Token::Operator(op2)
    &&& ts[i + 4].0 == Token::Int(z)
    &&& (i + 5 == ts.len() || token_precedence(ts[i + 5].0) == Precedence::Lowest)
}

pub open spec fn int_lit(x: String) -> Expression {
    Expression::Literal(Literal::Int(x))
}

pub open spec fn binary(l: Expression, op: BinaryOperator, r: Expression) -> Expression {
    Expression::BinaryOperation { left: Box::new(l), op, right: Box::new(r) }
}

/// Nothing binds after the end of an expression.
proof fn lemma_infix_stops(ts: Seq<(Token, Position)>, s: ReadState, prec: Precedence, left: Expression, e: ReadState, r: Result<Expression, ParseError>)
    requires
        0 <= s.0 <= ts.len(),
        s.0 == ts.len() || token_precedence(ts[s.0].0) == Precedence::Lowest,
        reads_infix(ts, s, prec, left, e, r),
    ensures
        r == Ok::<Expression, ParseError>(left),
        e == s,
{
}

/// An integer literal at `s` followed by an operator that binds no more
/// strongly than `prec` is read alone.
proof fn lemma_int_alone(ts: Seq<(Token, Position)>, s: ReadState, prec: Precedence, x: String, e: ReadState, r: Result<Expression, ParseError>)
    requires
        0 <= s.0,
        s.0 + 1 <= ts.len(),
        ts[s.0].0 == Token::Int(x),
        s.0 + 1 == ts.len() || strength(prec) >= strength(token_precedence(ts[s.0 + 1].0)),
        reads_expression(ts, s, prec, e, r),
    ensures
        r == Ok::<Expression, ParseError>(int_lit(x)),
        e == read_one(ts, s),
{
    assert(token_at(ts, s.0) == Some(Token::Int(x)));
    assert(reads_infix(ts, read_one(ts, s), prec, int_lit(x), e, r));
}

/// `x + y * z` (`+` or `-` first, then `*`, `/` or `%`) groups the
/// multiplicative operator first: `x + (y * z)`. So `%` binds like `*` and
/// `/`, more strongly than `+` and `-`.
pub proof fn lemma_multiplicative_binds_tighter(
    ts: Seq<(Token, Position)>, s: ReadState, x: String, op: OperatorToken, b: BinaryOperator,
    y: String, op2: OperatorToken, b2: BinaryOperator, z: String, e: ReadState, r: Result<Expression, ParseError>,
)
    requires
        three_ints(ts, s.0, x, op, y, op2, z),
        additive(op, b),
        multiplicative(op2, b2),
        reads_expression(ts, s, Precedence::Lowest, e, r),
    ensures
        r == Ok::<Expression, ParseError>(binary(int_lit(x), b, binary(int_lit(y), b2, int_lit(z)))),
{
    let i = s.0;
    assert(token_at(ts, i) == Some(Token::Int(x)));
    let s1 = read_one(ts, s);
    assert(reads_infix(ts, s1, Precedence::Lowest, int_lit(x), e, r));
    assert(token_at(ts, s1.0) == Some(Token::Operator(op)));
    assert(infix_binary(ts, s1, Precedence::Lowest, op, int_lit(x), e, r));
    let s2 = read_one(ts, s1);
    let (m, v) = choose|m: ReadState, v: Result<Expression, ParseError>| #[trigger] step_to(m, v) && 0 <= s1.0 < s2.0 <= m.0 <= ts.len()
        && reads_expression(ts, s2, operator_precedence(op), m, v)
        && match v {
            Err(err) => r == Err::<Expression, ParseError>(err) && e == m,
            Ok(right) => reads_infix(ts, m, Precedence::Lowest,
                Expression::BinaryOperation { left: Box::new(int_lit(x)), op: binary_of(op), right: Box::new(right) }, e, r),
        };
    // the right operand, read at the additive strength: `y * z`
    assert(token_at(ts, s2.0) == Some(Token::Int(y)));
    let s3 = read_one(ts, s2);
    assert(reads_infix(ts, s3, Precedence::Term, int_lit(y), m, v));
    assert(token_at(ts, s3.0) == Some(Token::Operator(op2)));
    assert(infix_binary(ts, s3, Precedence::Term, op2, int_lit(y), m, v));
    let s4 = read_one(ts, s3);
    let (m2, v2) = choose|m2: ReadState, v2: Result<Expression, ParseError>| #[trigger] step_to(m2, v2) && 0 <= s3.0 < s4.0 <= m2.0 <= ts.len()
        && reads_expression(ts, s4, operator_precedence(op2), m2, v2)
        && match v2 {
            Err(err) => v == Err::<Expression, ParseError>(err) && m == m2,
            Ok(right) => reads_infix(ts, m2, Precedence::Term,
                Expression::BinaryOperation { left: Box::new(int_lit(y)), op: binary_of(op2), right: Box::new(right) }, m, v),
        };
    lemma_int_alone(ts, s4, Precedence::Factor, z, m2, v2);
    let inner = binary(int_lit(y), b2, int_lit(z));
    lemma_infix_stops(ts, m2, Precedence::Term, inner, m, v);
    lemma_infix_stops(ts, m, Precedence::Lowest, binary(int_lit(x), b, inner), e, r);
}

/// `x * y + z`, `x + y - z` and `x * y % z`: when the first operator binds at
/// least as strongly as the second (both additive, or the first
/// multiplicative), the first pair is grouped first: `(x op y) op2 z`.
pub proof fn lemma_left_operand_grouped_first(
    ts: Seq<(Token, Position)>, s: ReadState, x: String, op: OperatorToken, b: BinaryOperator,
    y: String, op2: OperatorToken, b2: BinaryOperator, z: String, e: ReadState, r: Result<Expression, ParseError>,
)
    requires
        three_ints(ts, s.0, x, op, y, op2, z),
        (multiplicative(op, b) && (additive(op2, b2) || multiplicative(op2, b2)))
            || (additive(op, b) && additive(op2, b2)),
        reads_expression(ts, s, Precedence::Lowest, e, r),
    ensures
        r == Ok::<Expression, ParseError>(binary(binary(int_lit(x), b, int_lit(y)), b2, int_lit(z))),
{
    let i = s.0;
    assert(token_at(ts, i) == Some(Token::Int(x)));
    let s1 = read_one(ts, s);
    assert(reads_infix(ts, s1, Precedence::Lowest, int_lit(x), e, r));
    assert(token_at(ts, s1.0) == Some(Token::Operator(op)));
    assert(infix_binary(ts, s1, Precedence::Lowest, op, int_lit(x), e, r));
    let s2 = read_one(ts, s1);
    let (m, v) = choose|m: ReadState, v: Result<Expression, ParseError>| #[trigger] step_to(m, v) && 0 <= s1.0 < s2.0 <= m.0 <= ts.len()
        && reads_expression(ts, s2, operator_precedence(op), m, v)
        && match v {
            Err(err) => r == Err::<Expression, ParseError>(err) && e == m,
            Ok(right) => reads_infix(ts, m, Precedence::Lowest,
                Expression::BinaryOperation { left: Box::new(int_lit(x)), op: binary_of(op), right: Box::new(right) }, e, r),
        };
    // the right operand of the first operator stops before the second
    lemma_int_alone(ts, s2, operator_precedence(op), y, m, v);
    let first = binary(int_lit(x), b, int_lit(y));
    let s3 = read_one(ts, s2);
    assert(reads_infix(ts, s3, Precedence::Lowest, first, e, r));
    assert(token_at(ts, s3.0) == Some(Token::Operator(op2)));
    assert(infix_binary(ts, s3, Precedence::Lowest, op2, first, e, r));
    let s4 = read_one(ts, s3);
    let (m2, v2) = choose|m2: ReadState, v2: Result<Expression, ParseError>| #[trigger] step_to(m2, v2) && 0 <= s3.0 < s4.0 <= m2.0 <= ts.len()
        && reads_expression(ts, s4, operator_precedence(op2), m2, v2)
        && match v2 {
            Err(err) => r == Err::<Expression, ParseError>(err) && e == m2,
            Ok(right) => reads_infix(ts, m2, Precedence::Lowest,
                Expression::BinaryOperation { left: Box::new(first), op: binary_of(op2), right: Box::new(right) }, e, r),
        };
    lemma_int_alone(ts, s4, operator_precedence(op2), z, m2, v2);
    lemma_infix_stops(ts, m2, Precedence::Lowest, binary(first, b2, int_lit(z)), e, r);
}


/// The binary operator a token reads as.
pub open spec fn reads_as(op: OperatorToken, b: BinaryOperator) -> bool {
    ||| op == OperatorToken::Or && b == BinaryOperator::Or
    ||| op == OperatorToken::And && b == BinaryOperator::And
    ||| op == OperatorToken::Equal && b == BinaryOperator::Equal
    ||| op == OperatorToken::NotEqual && b == BinaryOperator::NotEqual
    ||| op == OperatorToken::LessThan && b == BinaryOperator::LessThan
    ||| op == OperatorToken::GreaterThan && b == BinaryOperator::GreaterThan
    ||| op == OperatorToken::LessEqual && b == BinaryOperator::LessEqual
    ||| op == OperatorToken::GreaterEqual && b == BinaryOperator::GreaterEqual
    ||| additive(op, b)
    ||| multiplicative(op, b)
}

/// The binding level of the binary operators, weakest first: `||`, `&&`,
/// `==` `!=`, `<` `>` `<=` `>=`, `+` `-`, `*` `/` `%`.
pub open spec fn binding_level(op: OperatorToken) -> int {
    match op {
        OperatorToken::Or => 1,
        OperatorToken::And => 2,
        OperatorToken::Equal | OperatorToken::NotEqual => 3,
        OperatorToken::LessThan | OperatorToken::GreaterThan | OperatorToken::LessEqual | OperatorToken::GreaterEqual => 4,
        OperatorToken::Plus | OperatorToken::Minus => 5,
        OperatorToken::Multiply | OperatorToken::Divide | OperatorToken::Modulo => 6,
        OperatorToken::Not => 0,
    }
}

proof fn lemma_level_is_strength(op: OperatorToken, b: BinaryOperator)
    requires
        reads_as(op, b),
    ensures
        strength(token_precedence(Token::Operator(op))) == binding_level(op) + 1,
        binary_of(op) == b,
{
}

/// Operator precedence and left associativity, for every pair of binary
/// operators: `x op y op2 z` groups as `(x op y) op2 z` when `op` binds at
/// least as strongly as `op2` by the level table of `binding_level`, and as
/// `x op (y op2 z)` when `op2` binds more strongly.
pub proof fn lemma_binary_grouping(
    ts: Seq<(Token, Position)>, s: ReadState, x: String, op: OperatorToken, b: BinaryOperator,
    y: String, op2: OperatorToken, b2: BinaryOperator, z: String, e: ReadState, r: Result<Expression, ParseError>,
)
    requires
        three_ints(ts, s.0, x, op, y, op2, z),
        reads_as(op, b),
        reads_as(op2, b2),
        reads_expression(ts, s, Precedence::Lowest, e, r),
    ensures
        binding_level(op) >= binding_level(op2) ==>
            r == Ok::<Expression, ParseError>(binary(binary(int_lit(x), b, int_lit(y)), b2, int_lit(z))),
        binding_level(op) < binding_level(op2) ==>
            r == Ok::<Expression, ParseError>(binary(int_lit(x), b, binary(int_lit(y), b2, int_lit(z)))),
{
    lemma_level_is_strength(op, b);
    lemma_level_is_strength(op2, b2);
    let p = operator_precedence(op);
    let p2 = operator_precedence(op2);
    assert(token_at(ts, s.0) == Some(Token::Int(x)));
    let s1 = read_one(ts, s);
    assert(reads_infix(ts, s1, Precedence::Lowest, int_lit(x), e, r));
    assert(token_at(ts, s1.0) == Some(Token::Operator(op)));
    assert(infix_binary(ts, s1, Precedence::Lowest, op, int_lit(x), e, r));
    let s2 = read_one(ts, s1);
    let (m, v) = choose|m: ReadState, v: Result<Expression, ParseError>| #[trigger] step_to(m, v) && 0 <= s1.0 < s2.0 <= m.0 <= ts.len()
        && reads_expression(ts, s2, p, m, v)
        && match v {
            Err(err) => r == Err::<Expression, ParseError>(err) && e == m,
            Ok(right) => reads_infix(ts, m, Precedence::Lowest,
                Expression::BinaryOperation { left: Box::new(int_lit(x)), op: binary_of(op), right: Box::new(right) }, e, r),
        };
    assert(token_at(ts, s2.0) == Some(Token::Int(y)));
    let s3 = read_one(ts, s2);
    assert(token_at(ts, s3.0) == Some(Token::Operator(op2)));
    let s4 = read_one(ts, s3);
    if binding_level(op) >= binding_level(op2) {
        lemma_int_alone(ts, s2, p, y, m, v);
        let first = binary(int_lit(x), b, int_lit(y));
        assert(reads_infix(ts, s3, Precedence::Lowest, first, e, r));
        assert(infix_binary(ts, s3, Precedence::Lowest, op2, first, e, r));
        let (m2, v2) = choose|m2: ReadState, v2: Result<Expression, ParseError>| #[trigger] step_to(m2, v2) && 0 <= s3.0 < s4.0 <= m2.0 <= ts.len()
            && reads_expression(ts, s4, p2, m2, v2)
            && match v2 {
                Err(err) => r == Err::<Expression, ParseError>(err) && e == m2,
                Ok(right) => reads_infix(ts, m2, Precedence::Lowest,
                    Expression::BinaryOperation { left: Box::new(first), op: binary_of(op2), right: Box::new(right) }, e, r),
            };
        lemma_int_alone(ts, s4, p2, z, m2, v2);
        lemma_infix_stops(ts, m2, Precedence::Lowest, binary(first, b2, int_lit(z)), e, r);
    } else {
        assert(reads_infix(ts, s3, p, int_lit(y), m, v));
        assert(infix_binary(ts, s3, p, op2, int_lit(y), m, v));
        let (m2, v2) = choose|m2: ReadState, v2: Result<Expression, ParseError>| #[trigger] step_to(m2, v2) && 0 <= s3.0 < s4.0 <= m2.0 <= ts.len()
            && reads_expression(ts, s4, p2, m2, v2)
            && match v2 {
                Err(err) => v == Err::<Expression, ParseError>(err) && m == m2,
                Ok(right) => reads_infix(ts, m2, p,
                    Expression::BinaryOperation { left: Box::new(int_lit(y)), op: binary_of(op2), right: Box::new(right) }, m, v),
            };
        lemma_int_alone(ts, s4, p2, z, m2, v2);
        let inner = binary(int_lit(y), b2, int_lit(z));
        lemma_infix_stops(ts, m2, p, inner, m, v);
        lemma_infix_stops(ts, m, Precedence::Lowest, binary(int_lit(x), b, inner), e, r);
    }
}


/// `!` is only a prefix operator: after an operand it is an error, whatever
/// the operand and whatever follows.
pub proof fn lemma_not_is_no_infix_operator(
    ts: Seq<(Token, Position)>, s: ReadState, x: String, e: ReadState, r: Result<Expression, ParseError>,
)
    requires
        0 <= s.0,
        s.0 + 2 <= ts.len(),
        ts[s.0].0 == Token::Int(x),
        ts[s.0 + 1].0 == Token::Operator(OperatorToken::Not),
        reads_expression(ts, s, Precedence::Lowest, e, r),
    ensures
        r is Err,
{
    assert(token_at(ts, s.0) == Some(Token::Int(x)));
    let s1 = read_one(ts, s);
    assert(reads_infix(ts, s1, Precedence::Lowest, int_lit(x), e, r));
    assert(token_at(ts, s1.0) == Some(Token::Operator(OperatorToken::Not)));
}

} // verus!
