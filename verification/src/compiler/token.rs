//! Tokens of the game script.

use vstd::prelude::*;

verus! {

#[derive(Debug, Clone, Copy, PartialEq, Eq, Hash, Structural)]
pub enum OperatorToken {
    Plus,
    Minus,
    Multiply,
    Divide,
    Modulo,
    Equal,
    NotEqual,
    LessThan,
    GreaterThan,
    LessEqual,
    GreaterEqual,
    And,
    Or,
    Not,
}

#[derive(Debug, Clone, Copy, PartialEq, Eq, Hash, Structural)]
pub enum AssignmentToken {
    Assign,
}

#[derive(Debug, Clone, Copy, PartialEq, Eq, Hash, Structural)]
pub enum PunctuationToken {
    LeftParen,
    RightParen,
    LeftBrace,
    RightBrace,
    LeftBracket,
    RightBracket,
    Comma,
    Dot,
    Colon,
    Semicolon,
    Arrow,
}

#[derive(Debug, Clone, Copy, PartialEq, Eq, Hash, Structural)]
pub enum KeywordToken {
    Let,
    Fn,
    If,
    Elif,
    Else,
    For,
    While,
    Return,
    Import,
    From,
    As,
    Struct,
    True,
    False,
    Null,
    Break,
    Export,
    Impl,
}

#[derive(Debug, Clone, Copy, PartialEq, Eq, Hash, Structural)]
pub enum SpecialToken {
    /// End of the input.
    Eof,
    /// An unrecognized character or sequence.
    Illegal,
}

#[derive(Debug, PartialEq, Eq, Clone, Hash)]
pub enum CommentToken {
    LineComment(String),
    BlockComment(String),
    DocumentLineComment(String),
    DocumentBlockComment(String),
    InnerDocumentComment(String),
}

/// Where a token starts and where the next one may start (columns count
/// characters from 1).
#[derive(Debug, Clone, Copy, PartialEq, Default, Structural)]
pub struct Position {
    pub start_line: usize,
    pub start_column: usize,
    pub end_line: usize,
    pub end_column: usize,
}

#[derive(Debug, PartialEq, Eq, Hash)]
pub enum Token {
    Int(String),
    Float(String),
    String(String),
    Identifier(String),
    Operator(OperatorToken),
    Assignment(AssignmentToken),
    Punctuation(PunctuationToken),
    Keyword(KeywordToken),
    Special(SpecialToken),
}

impl Clone for Token {
    fn clone(&self) -> (r: Self)
        ensures
            r == *self,
    {
        match self {
            Token::Int(s) => Token::Int(s.clone()),
            Token::Float(s) => Token::Float(s.clone()),
            Token::String(s) => Token::String(s.clone()),
            Token::Identifier(s) => Token::Identifier(s.clone()),
            Token::Operator(o) => Token::Operator(*o),
            Token::Assignment(a) => Token::Assignment(*a),
            Token::Punctuation(p) => Token::Punctuation(*p),
            Token::Keyword(k) => Token::Keyword(*k),
            Token::Special(s) => Token::Special(*s),
        }
    }
}

/// std's `<String as From<&str>>::from`: a new `String` holding a copy of the
/// characters of `s`, as its documentation says ("Converts a `&str` into a
/// `String`"). Through `Into`, this fixes the text of a token made from a
/// string slice.
pub assume_specification<'a>[ <std::string::String as core::convert::From<&'a str>>::from ](s: &str) -> (r: std::string::String)
    ensures
        r@ == s@,
;

/// std's blanket `<A as From<A>>::from`: it returns its argument.
pub assume_specification<A>[ <A as core::convert::From<A>>::from ](a: A) -> (r: A)
    ensures
        r == a,
;

impl Token {
    /// An identifier token of `s`.
    pub fn identifier<S: Into<String>>(s: S) -> (r: Self)
        ensures
            r matches Token::Identifier(t) && call_ensures(S::into, (s,), t),
    {
        Token::Identifier(s.into())
    }

    /// An integer token of the digits `s`.
    pub fn integer<S: Into<String>>(s: S) -> (r: Self)
        ensures
            r matches Token::Int(t) && call_ensures(S::into, (s,), t),
    {
        Token::Int(s.into())
    }

    /// A float token of the text `s`.
    pub fn float<S: Into<String>>(s: S) -> (r: Self)
        ensures
            r matches Token::Float(t) && call_ensures(S::into, (s,), t),
    {
        Token::Float(s.into())
    }

    /// A string token of the content `s`.
    pub fn string<S: Into<String>>(s: S) -> (r: Self)
        ensures
            r matches Token::String(t) && call_ensures(S::into, (s,), t),
    {
        Token::String(s.into())
    }
}

/// The keyword spelled `s`, if `s` is one.
pub open spec fn keyword_of(s: Seq<char>) -> Option<KeywordToken> {
    if s == "let"@ { Some(KeywordToken::Let) }
    else if s == "fn"@ { Some(KeywordToken::Fn) }
    else if s == "if"@ { Some(KeywordToken::If) }
    else if s == "elif"@ { Some(KeywordToken::Elif) }
    else if s == "else"@ { Some(KeywordToken::Else) }
    else if s == "for"@ { Some(KeywordToken::For) }
    else if s == "while"@ { Some(KeywordToken::While) }
    else if s == "return"@ { Some(KeywordToken::Return) }
    else if s == "import"@ { Some(KeywordToken::Import) }
    else if s == "from"@ { Some(KeywordToken::From) }
    else if s == "as"@ { Some(KeywordToken::As) }
    else if s == "struct"@ { Some(KeywordToken::Struct) }
    else if s == "true"@ { Some(KeywordToken::True) }
    else if s == "false"@ { Some(KeywordToken::False) }
    else if s == "null"@ { Some(KeywordToken::Null) }
    else if s == "break"@ { Some(KeywordToken::Break) }
    else if s == "export"@ { Some(KeywordToken::Export) }
    else if s == "impl"@ { Some(KeywordToken::Impl) }
    else { None }
}

/// Whether two strings hold the same characters.
pub fn same_text(a: &str, b: &str) -> (r: bool)
    ensures
        r == (a@ == b@),
{
    let n = a.unicode_len();
    if n != b.unicode_len() {
        return false;
    }
    let mut i: usize = 0;
    while i < n
        invariant
            n == a@.len() == b@.len(),
            i <= n,
            forall|j: int| 0 <= j < i ==> a@[j] == b@[j],
        decreases n - i,
    {
        if a.get_char(i) != b.get_char(i) {
            return false;
        }
        i = i + 1;
    }
    proof {
        assert(a@ =~= b@);
    }
    true
}

/// The keyword spelled `s`, if `s` is one.
pub fn lookup_keyword(s: &str) -> (r: Option<KeywordToken>)
    ensures
        r == keyword_of(s@),
{
    if same_text(s, "let") { Some(KeywordToken::Let) }
    else if same_text(s, "fn") { Some(KeywordToken::Fn) }
    else if same_text(s, "if") { Some(KeywordToken::If) }
    else if same_text(s, "elif") { Some(KeywordToken::Elif) }
    else if same_text(s, "else") { Some(KeywordToken::Else) }
    else if same_text(s, "for") { Some(KeywordToken::For) }
    else if same_text(s, "while") { Some(KeywordToken::While) }
    else if same_text(s, "return") { Some(KeywordToken::Return) }
    else if same_text(s, "import") { Some(KeywordToken::Import) }
    else if same_text(s, "from") { Some(KeywordToken::From) }
    else if same_text(s, "as") { Some(KeywordToken::As) }
    else if same_text(s, "struct") { Some(KeywordToken::Struct) }
    else if same_text(s, "true") { Some(KeywordToken::True) }
    else if same_text(s, "false") { Some(KeywordToken::False) }
    else if same_text(s, "null") { Some(KeywordToken::Null) }
    else if same_text(s, "break") { Some(KeywordToken::Break) }
    else if same_text(s, "export") { Some(KeywordToken::Export) }
    else if same_text(s, "impl") { Some(KeywordToken::Impl) }
    else { None }
}

/// How an operator is written.
pub open spec fn operator_text(t: OperatorToken) -> Seq<char> {
    match t {
        OperatorToken::Plus => "+"@,
        OperatorToken::Minus => "-"@,
        OperatorToken::Multiply => "*"@,
        OperatorToken::Divide => "/"@,
        OperatorToken::Modulo => "%"@,
        OperatorToken::Equal => "=="@,
        OperatorToken::NotEqual => "!="@,
        OperatorToken::LessThan => "<"@,
        OperatorToken::GreaterThan => ">"@,
        OperatorToken::LessEqual => "<="@,
        OperatorToken::GreaterEqual => ">="@,
        OperatorToken::And => "&&"@,
        OperatorToken::Or => "||"@,
        OperatorToken::Not => "!"@,
    }
}

impl OperatorToken {
    /// The token as written in the source.
    pub fn to_string(&self) -> (r: String)
        ensures
            r@ == operator_text(*self),
    {
        match self {
            OperatorToken::Plus => "+".to_owned(),
            OperatorToken::Minus => "-".to_owned(),
            OperatorToken::Multiply => "*".to_owned(),
            OperatorToken::Divide => "/".to_owned(),
            OperatorToken::Modulo => "%".to_owned(),
            OperatorToken::Equal => "==".to_owned(),
            OperatorToken::NotEqual => "!=".to_owned(),
            OperatorToken::LessThan => "<".to_owned(),
            OperatorToken::GreaterThan => ">".to_owned(),
            OperatorToken::LessEqual => "<=".to_owned(),
            OperatorToken::GreaterEqual => ">=".to_owned(),
            OperatorToken::And => "&&".to_owned(),
            OperatorToken::Or => "||".to_owned(),
            OperatorToken::Not => "!".to_owned(),
        }
    }
}

/// How an assignment is written.
pub open spec fn assignment_text(t: AssignmentToken) -> Seq<char> {
    match t {
        AssignmentToken::Assign => "="@,
    }
}

impl AssignmentToken {
    /// The token as written in the source.
    pub fn to_string(&self) -> (r: String)
        ensures
            r@ == assignment_text(*self),
    {
        match self {
            AssignmentToken::Assign => "=".to_owned(),
        }
    }
}

/// Each keyword is found again from its own spelling, so `lookup_keyword`
/// and `KeywordToken::to_string` are inverse on keywords.
pub proof fn lemma_keyword_round_trip(k: KeywordToken)
    ensures
        keyword_of(keyword_text(k)) == Some(k),
{
    reveal_strlit("let");
    assert("let"@.len() == 3 && "let"@[0] == 'l' && "let"@[2] == 't');
    reveal_strlit("fn");
    assert("fn"@.len() == 2 && "fn"@[0] == 'f');
    reveal_strlit("if");
    assert("if"@.len() == 2 && "if"@[0] == 'i');
    reveal_strlit("elif");
    assert("elif"@.len() == 4 && "elif"@[0] == 'e' && "elif"@[2] == 'i');
    reveal_strlit("else");
    assert("else"@.len() == 4 && "else"@[0] == 'e' && "else"@[2] == 's');
    reveal_strlit("for");
    assert("for"@.len() == 3 && "for"@[0] == 'f' && "for"@[2] == 'r');
    reveal_strlit("while");
    assert("while"@.len() == 5 && "while"@[0] == 'w' && "while"@[2] == 'i');
    reveal_strlit("return");
    assert("return"@.len() == 6 && "return"@[0] == 'r' && "return"@[2] == 't');
    reveal_strlit("import");
    assert("import"@.len() == 6 && "import"@[0] == 'i' && "import"@[2] == 'p');
    reveal_strlit("from");
    assert("from"@.len() == 4 && "from"@[0] == 'f' && "from"@[2] == 'o');
    reveal_strlit("as");
    assert("as"@.len() == 2 && "as"@[0] == 'a');
    reveal_strlit("struct");
    assert("struct"@.len() == 6 && "struct"@[0] == 's' && "struct"@[2] == 'r');
    reveal_strlit("true");
    assert("true"@.len() == 4 && "true"@[0] == 't' && "true"@[2] == 'u');
    reveal_strlit("false");
    assert("false"@.len() == 5 && "false"@[0] == 'f' && "false"@[2] == 'l');
    reveal_strlit("null");
    assert("null"@.len() == 4 && "null"@[0] == 'n' && "null"@[2] == 'l');
    reveal_strlit("break");
    assert("break"@.len() == 5 && "break"@[0] == 'b' && "break"@[2] == 'e');
    reveal_strlit("export");
    assert("export"@.len() == 6 && "export"@[0] == 'e' && "export"@[2] == 'p');
    reveal_strlit("impl");
    assert("impl"@.len() == 4 && "impl"@[0] == 'i' && "impl"@[2] == 'p');
    let s = keyword_text(k);
    assert(s[0] == s[0]);
    if s.len() > 2 {
        assert(s[2] == s[2]);
    }
}

/// How a punctuation mark is written.
pub open spec fn punctuation_text(t: PunctuationToken) -> Seq<char> {
    match t {
        PunctuationToken::LeftParen => "("@,
        PunctuationToken::RightParen => ")"@,
        PunctuationToken::LeftBrace => "{"@,
        PunctuationToken::RightBrace => "}"@,
        PunctuationToken::LeftBracket => "["@,
        PunctuationToken::RightBracket => "]"@,
        PunctuationToken::Comma => ","@,
        PunctuationToken::Dot => "."@,
        PunctuationToken::Colon => ":"@,
        PunctuationToken::Semicolon => ";"@,
        PunctuationToken::Arrow => "->"@,
    }
}

impl PunctuationToken {
    /// The token as written in the source.
    pub fn to_string(&self) -> (r: String)
        ensures
            r@ == punctuation_text(*self),
    {
        match self {
            PunctuationToken::LeftParen => "(".to_owned(),
            PunctuationToken::RightParen => ")".to_owned(),
            PunctuationToken::LeftBrace => "{".to_owned(),
            PunctuationToken::RightBrace => "}".to_owned(),
            PunctuationToken::LeftBracket => "[".to_owned(),
            PunctuationToken::RightBracket => "]".to_owned(),
            PunctuationToken::Comma => ",".to_owned(),
            PunctuationToken::Dot => ".".to_owned(),
            PunctuationToken::Colon => ":".to_owned(),
            PunctuationToken::Semicolon => ";".to_owned(),
            PunctuationToken::Arrow => "->".to_owned(),
        }
    }
}

/// How a keyword is written.
pub open spec fn keyword_text(t: KeywordToken) -> Seq<char> {
    match t {
        KeywordToken::Let => "let"@,
        KeywordToken::Fn => "fn"@,
        KeywordToken::If => "if"@,
        KeywordToken::Elif => "elif"@,
        KeywordToken::Else => "else"@,
        KeywordToken::For => "for"@,
        KeywordToken::While => "while"@,
        KeywordToken::Return => "return"@,
        KeywordToken::Import => "import"@,
        KeywordToken::From => "from"@,
        KeywordToken::As => "as"@,
        KeywordToken::Struct => "struct"@,
        KeywordToken::True => "true"@,
        KeywordToken::False => "false"@,
        KeywordToken::Null => "null"@,
        KeywordToken::Break => "break"@,
        KeywordToken::Export => "export"@,
        KeywordToken::Impl => "impl"@,
    }
}

impl KeywordToken {
    /// The token as written in the source.
    pub fn to_string(&self) -> (r: String)
        ensures
            r@ == keyword_text(*self),
    {
        match self {
            KeywordToken::Let => "let".to_owned(),
            KeywordToken::Fn => "fn".to_owned(),
            KeywordToken::If => "if".to_owned(),
            KeywordToken::Elif => "elif".to_owned(),
            KeywordToken::Else => "else".to_owned(),
            KeywordToken::For => "for".to_owned(),
            KeywordToken::While => "while".to_owned(),
            KeywordToken::Return => "return".to_owned(),
            KeywordToken::Import => "import".to_owned(),
            KeywordToken::From => "from".to_owned(),
            KeywordToken::As => "as".to_owned(),
            KeywordToken::Struct => "struct".to_owned(),
            KeywordToken::True => "true".to_owned(),
            KeywordToken::False => "false".to_owned(),
            KeywordToken::Null => "null".to_owned(),
            KeywordToken::Break => "break".to_owned(),
            KeywordToken::Export => "export".to_owned(),
            KeywordToken::Impl => "impl".to_owned(),
        }
    }
}

/// How a special token is shown.
pub open spec fn special_text(t: SpecialToken) -> Seq<char> {
    match t {
        SpecialToken::Eof => "EOF"@,
        SpecialToken::Illegal => "Illegal"@,
    }
}

impl SpecialToken {
    /// The token as written in the source.
    pub fn to_string(&self) -> (r: String)
        ensures
            r@ == special_text(*self),
    {
        match self {
            SpecialToken::Eof => "EOF".to_owned(),
            SpecialToken::Illegal => "Illegal".to_owned(),
        }
    }
}

} // verus!
