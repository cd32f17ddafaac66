//! The tokenizer: turns source text into tokens with their positions.

use vstd::prelude::*;
use crate::compiler::token::{
    keyword_of, lookup_keyword, AssignmentToken, KeywordToken, OperatorToken, Position,
    PunctuationToken, SpecialToken, Token,
};

verus! {

// ── Character classes ────────────────────────────────────────────────────────

/// `char::is_whitespace`: the Unicode `White_Space` property, which holds of
/// exactly these code points.
pub open spec fn char_is_whitespace(c: char) -> bool {
    let n = c as u32;
    ||| 0x09 <= n <= 0x0d
    ||| n == 0x20
    ||| n == 0x85
    ||| n == 0xa0
    ||| n == 0x1680
    ||| 0x2000 <= n <= 0x200a
    ||| n == 0x2028
    ||| n == 0x2029
    ||| n == 0x202f
    ||| n == 0x205f
    ||| n == 0x3000
}

/// An ASCII letter.
pub open spec fn ascii_letter(c: char) -> bool {
    ('a' <= c && c <= 'z') || ('A' <= c && c <= 'Z')
}

/// An ASCII digit.
pub open spec fn ascii_digit(c: char) -> bool {
    '0' <= c && c <= '9'
}

/// `char::is_alphabetic` (Unicode `Alphabetic`).
pub uninterp spec fn char_is_alphabetic(c: char) -> bool;

/// `char::is_alphanumeric` (Unicode `Alphabetic` or `Numeric`).
pub uninterp spec fn char_is_alphanumeric(c: char) -> bool;

/// Calls `char::is_whitespace`.
#[verifier::external_body]
fn is_whitespace(c: char) -> (r: bool)
    ensures
        r == char_is_whitespace(c),
{
    c.is_whitespace()
}

/// Calls `char::is_alphabetic`. Among ASCII characters, the `Alphabetic`
/// ones are the letters.
#[verifier::external_body]
fn is_alphabetic(c: char) -> (r: bool)
    ensures
        r == char_is_alphabetic(c),
        (c as u32) < 0x80 ==> (r <==> ascii_letter(c)),
{
    c.is_alphabetic()
}

/// Calls `char::is_alphanumeric`. Among ASCII characters, the `Alphabetic`
/// or `Numeric` ones are the letters and the digits.
#[verifier::external_body]
fn is_alphanumeric(c: char) -> (r: bool)
    ensures
        r == char_is_alphanumeric(c),
        (c as u32) < 0x80 ==> (r <==> (ascii_letter(c) || ascii_digit(c))),
{
    c.is_alphanumeric()
}

/// The characters of `s` (collects `str::chars`).
#[verifier::external_body]
fn chars_of(s: &str) -> (r: Vec<char>)
    ensures
        r@ == s@,
{
    s.chars().collect()
}

/// A string of the characters `v` (collects them).
#[verifier::external_body]
fn string_of_chars(v: &Vec<char>) -> (r: String)
    ensures
        r@ == v@,
{
    v.iter().collect()
}

pub open spec fn is_digit(c: char) -> bool {
    '0' <= c <= '9'
}

pub open spec fn ident_start(c: char) -> bool {
    char_is_alphabetic(c) || c == '_'
}

pub open spec fn ident_continue(c: char) -> bool {
    char_is_alphanumeric(c) || c == '_'
}

/// Length of the longest prefix of `s` whose characters all satisfy `p`.
pub open spec fn run_len(s: Seq<char>, p: spec_fn(char) -> bool) -> nat
    decreases s.len(),
{
    if s.len() > 0 && p(s[0]) {
        1 + run_len(s.skip(1), p)
    } else {
        0
    }
}

// ── Lines, columns and bytes ─────────────────────────────────────────────────

/// The line after reading `s` (lines count from 1).
pub open spec fn line_after(s: Seq<char>) -> nat
    decreases s.len(),
{
    if s.len() == 0 {
        1
    } else {
        line_after(s.drop_last()) + if s.last() == '\n' { 1nat } else { 0nat }
    }
}

/// The column after reading `s` (columns count characters from 1).
pub open spec fn column_after(s: Seq<char>) -> nat
    decreases s.len(),
{
    if s.len() == 0 {
        1
    } else if s.last() == '\n' {
        1
    } else {
        column_after(s.drop_last()) + 1
    }
}

/// The length of `c` in UTF-8.
pub open spec fn utf8_len(c: char) -> nat {
    if (c as u32) < 0x80 {
        1
    } else if (c as u32) < 0x800 {
        2
    } else if (c as u32) < 0x10000 {
        3
    } else {
        4
    }
}

/// The length of `s` in UTF-8.
pub open spec fn utf8_total(s: Seq<char>) -> nat
    decreases s.len(),
{
    if s.len() == 0 {
        0
    } else {
        utf8_total(s.drop_last()) + utf8_len(s.last())
    }
}

proof fn lemma_counters_bounded(s: Seq<char>)
    ensures
        line_after(s) <= s.len() + 1,
        column_after(s) <= s.len() + 1,
        utf8_total(s) <= 4 * s.len(),
    decreases s.len(),
{
    if s.len() > 0 {
        lemma_counters_bounded(s.drop_last());
    }
}

// ── String literals ──────────────────────────────────────────────────────────

/// The character an escape `\e` stands for.
pub open spec fn escaped(e: char) -> Option<char> {
    match e {
        'n' => Some('\n'),
        't' => Some('\t'),
        'r' => Some('\r'),
        '\\' => Some('\\'),
        '\'' => Some('\''),
        '"' => Some('"'),
        '`' => Some('`'),
        _ => None,
    }
}

/// Reading a string literal's body up to the closing quote.
pub ghost enum StringScan {
    /// The content, and the characters read including the closing quote.
    Done(Seq<char>, nat),
    /// A bad escape, a newline outside a backtick string, or the end of
    /// the input: the characters read up to and including the offending one,
    /// and why.
    Failed(nat, StringError),
}

/// `scan` of a body after `prefix` was read in `used` characters.
pub open spec fn after_prefix(prefix: Seq<char>, used: nat, rest: StringScan) -> StringScan {
    match rest {
        StringScan::Done(c, u) => StringScan::Done(prefix + c, used + u),
        StringScan::Failed(u, e) => StringScan::Failed(used + u, e),
    }
}

/// Reads the body of a string literal quoted with `quote`.
pub open spec fn scan_string(body: Seq<char>, quote: char) -> StringScan
    decreases body.len(),
{
    if body.len() == 0 {
        StringScan::Failed(0, StringError::Eof)
    } else if body[0] == quote {
        StringScan::Done(Seq::empty(), 1)
    } else if body[0] == '\\' {
        if body.len() < 2 {
            StringScan::Failed(1, StringError::EofAfterBackslash)
        } else {
            match escaped(body[1]) {
                None => StringScan::Failed(2, StringError::InvalidEscape(body[1])),
                Some(x) => after_prefix(seq![x], 2, scan_string(body.skip(2), quote)),
            }
        }
    } else if body[0] == '\n' && quote != '`' {
        StringScan::Failed(1, StringError::Newline)
    } else {
        after_prefix(seq![body[0]], 1, scan_string(body.skip(1), quote))
    }
}

/// Why the string literal starting at `s` in `text` cannot be read, when a
/// quote starts a string there that fails.
pub open spec fn string_error_at(text: Seq<char>, s: int) -> Option<StringError> {
    if 0 <= s < text.len() && (text[s] == '"' || text[s] == '\'' || text[s] == '`') {
        match scan_string(text.skip(s + 1), text[s]) {
            StringScan::Failed(_, e) => Some(e),
            _ => None,
        }
    } else {
        None
    }
}

// ── Tokens ───────────────────────────────────────────────────────────────────

/// `c` followed by `d`.
pub open spec fn followed_by(rest: Seq<char>, d: char) -> bool {
    rest.len() > 1 && rest[1] == d
}

/// The token the input `rest` starts with, and how many characters it takes.
pub open spec fn lexes(rest: Seq<char>, token: Token, n: nat) -> bool {
    if rest.len() == 0 {
        token == Token::Special(SpecialToken::Eof) && n == 0
    } else {
        let c = rest[0];
        let single = |t: Token| token == t && n == 1;
        let pair = |d: char, two: Token, one: Token|
            if followed_by(rest, d) { token == two && n == 2 } else { token == one && n == 1 };
        if c == '(' { single(Token::Punctuation(PunctuationToken::LeftParen)) }
        else if c == ')' { single(Token::Punctuation(PunctuationToken::RightParen)) }
        else if c == '{' { single(Token::Punctuation(PunctuationToken::LeftBrace)) }
        else if c == '}' { single(Token::Punctuation(PunctuationToken::RightBrace)) }
        else if c == '[' { single(Token::Punctuation(PunctuationToken::LeftBracket)) }
        else if c == ']' { single(Token::Punctuation(PunctuationToken::RightBracket)) }
        else if c == ',' { single(Token::Punctuation(PunctuationToken::Comma)) }
        else if c == '.' { single(Token::Punctuation(PunctuationToken::Dot)) }
        else if c == ':' { single(Token::Punctuation(PunctuationToken::Colon)) }
        else if c == ';' { single(Token::Punctuation(PunctuationToken::Semicolon)) }
        else if c == '+' { single(Token::Operator(OperatorToken::Plus)) }
        else if c == '*' { single(Token::Operator(OperatorToken::Multiply)) }
        else if c == '/' { single(Token::Operator(OperatorToken::Divide)) }
        else if c == '%' { single(Token::Operator(OperatorToken::Modulo)) }
        else if c == '-' { pair('>', Token::Punctuation(PunctuationToken::Arrow), Token::Operator(OperatorToken::Minus)) }
        else if c == '=' { pair('=', Token::Operator(OperatorToken::Equal), Token::Assignment(AssignmentToken::Assign)) }
        else if c == '!' { pair('=', Token::Operator(OperatorToken::NotEqual), Token::Operator(OperatorToken::Not)) }
        else if c == '<' { pair('=', Token::Operator(OperatorToken::LessEqual), Token::Operator(OperatorToken::LessThan)) }
        else if c == '>' { pair('=', Token::Operator(OperatorToken::GreaterEqual), Token::Operator(OperatorToken::GreaterThan)) }
        else if c == '&' { pair('&', Token::Operator(OperatorToken::And), Token::Special(SpecialToken::Illegal)) }
        else if c == '|' { pair('|', Token::Operator(OperatorToken::Or), Token::Special(SpecialToken::Illegal)) }
        else if c == '"' || c == '\'' || c == '`' {
            match scan_string(rest.skip(1), c) {
                StringScan::Done(content, used) => (token matches Token::String(t) && t@ == content) && n == 1 + used,
                StringScan::Failed(used, _) => token == Token::Special(SpecialToken::Illegal) && n == 1 + used,
            }
        } else if is_digit(c) {
            let whole = run_len(rest, |x: char| is_digit(x));
            if rest.len() > whole + 1 && rest[whole as int] == '.' && is_digit(rest[whole + 1int]) {
                let m = whole + 1 + run_len(rest.skip(whole + 1int), |x: char| is_digit(x));
                (token matches Token::Float(t) && t@ == rest.take(m as int)) && n == m
            } else {
                (token matches Token::Int(t) && t@ == rest.take(whole as int)) && n == whole
            }
        } else if ident_start(c) {
            let m = 1 + run_len(rest.skip(1), |x: char| ident_continue(x));
            let text = rest.take(m as int);
            n == m && match keyword_of(text) {
                Some(k) => token == Token::Keyword(k),
                None => token matches Token::Identifier(t) && t@ == text,
            }
        } else {
            single(Token::Special(SpecialToken::Illegal))
        }
    }
}

/// No whitespace and no comment starts at `i`.
pub open spec fn at_token_start(s: Seq<char>, i: int) -> bool {
    i == s.len() || (!char_is_whitespace(s[i]) && !(s[i] == '/' && i + 1 < s.len() && (s[i + 1] == '/' || s[i + 1] == '*')))
}

proof fn lemma_run_len(s: Seq<char>, p: spec_fn(char) -> bool, n: nat)
    requires
        n <= s.len(),
        forall|j: int| 0 <= j < n ==> p(#[trigger] s[j]),
        n == s.len() || !p(s[n as int]),
    ensures
        run_len(s, p) == n,
    decreases n,
{
    if n > 0 {
        let t = s.skip(1);
        assert forall|j: int| 0 <= j < n - 1 implies p(#[trigger] t[j]) by {
            assert(t[j] == s[j + 1]);
        }
        if n - 1 < t.len() {
            assert(t[n - 1] == s[n as int]);
        }
        lemma_run_len(t, p, (n - 1) as nat);
    }
}

/// Where a `//` comment whose text starts at `j` ends: at the next newline,
/// which it leaves in place, or at the end of the input.
pub open spec fn line_comment_end(t: Seq<char>, j: int) -> int
    decreases t.len() - j,
{
    if j < 0 || j >= t.len() || t[j] == '\n' {
        j
    } else {
        line_comment_end(t, j + 1)
    }
}

/// Where a `/* */` comment ends when its text from `j` on is read at nesting
/// `depth`: a `/*` opens one more level, a `*/` closes one, and the comment
/// ends after the `*/` that closes the last level, or at the end of the input.
pub open spec fn block_comment_end(t: Seq<char>, j: int, depth: nat) -> int
    decreases t.len() - j,
{
    if j < 0 || j >= t.len() {
        j
    } else if t[j] == '*' && j + 1 < t.len() && t[j + 1] == '/' {
        if depth <= 1 {
            j + 2
        } else {
            block_comment_end(t, j + 2, (depth - 1) as nat)
        }
    } else if t[j] == '/' && j + 1 < t.len() && t[j + 1] == '*' {
        block_comment_end(t, j + 2, depth + 1)
    } else {
        block_comment_end(t, j + 1, depth)
    }
}

/// A `//` comment ends between where its text starts and the end of the input.
pub proof fn lemma_line_comment_end(t: Seq<char>, j: int)
    requires
        0 <= j <= t.len(),
    ensures
        j <= line_comment_end(t, j) <= t.len(),
    decreases t.len() - j,
{
    if j < t.len() && t[j] != '\n' {
        lemma_line_comment_end(t, j + 1);
    }
}

/// A `/* */` comment ends between where its text starts and the end of the
/// input.
pub proof fn lemma_block_comment_end(t: Seq<char>, j: int, depth: nat)
    requires
        0 <= j <= t.len(),
    ensures
        j <= block_comment_end(t, j, depth) <= t.len(),
    decreases t.len() - j,
{
    if j < t.len() {
        if t[j] == '*' && j + 1 < t.len() && t[j + 1] == '/' {
            if depth > 1 {
                lemma_block_comment_end(t, j + 2, (depth - 1) as nat);
            }
        } else if t[j] == '/' && j + 1 < t.len() && t[j + 1] == '*' {
            lemma_block_comment_end(t, j + 2, depth + 1);
        } else {
            lemma_block_comment_end(t, j + 1, depth);
        }
    }
}

/// Where the whitespace and comments that start at `i` end.
pub open spec fn skip_end(t: Seq<char>, i: int) -> int
    decreases t.len() - i,
{
    if i < 0 || i >= t.len() {
        i
    } else if char_is_whitespace(t[i]) {
        skip_end(t, i + 1)
    } else if t[i] == '/' && i + 1 < t.len() && t[i + 1] == '/' {
        proof {
            lemma_line_comment_end(t, i + 2);
        }
        skip_end(t, line_comment_end(t, i + 2))
    } else if t[i] == '/' && i + 1 < t.len() && t[i + 1] == '*' {
        proof {
            lemma_block_comment_end(t, i + 2, 1);
        }
        skip_end(t, block_comment_end(t, i + 2, 1))
    } else {
        i
    }
}

/// Whether the `/* */` comment whose text starts at `j`, `depth` levels
/// deep, is closed before the end of the input.
pub open spec fn block_comment_closed(t: Seq<char>, j: int, depth: nat) -> bool
    decreases t.len() - j,
{
    if j < 0 || j >= t.len() {
        false
    } else if t[j] == '*' && j + 1 < t.len() && t[j + 1] == '/' {
        if depth <= 1 {
            true
        } else {
            block_comment_closed(t, j + 2, (depth - 1) as nat)
        }
    } else if t[j] == '/' && j + 1 < t.len() && t[j + 1] == '*' {
        block_comment_closed(t, j + 2, depth + 1)
    } else {
        block_comment_closed(t, j + 1, depth)
    }
}

/// Whether the whitespace and comments that start at `i` end in a `/* */`
/// comment that is never closed.
pub open spec fn skip_unclosed(t: Seq<char>, i: int) -> bool
    decreases t.len() - i,
{
    if i < 0 || i >= t.len() {
        false
    } else if char_is_whitespace(t[i]) {
        skip_unclosed(t, i + 1)
    } else if t[i] == '/' && i + 1 < t.len() && t[i + 1] == '/' {
        proof {
            lemma_line_comment_end(t, i + 2);
        }
        skip_unclosed(t, line_comment_end(t, i + 2))
    } else if t[i] == '/' && i + 1 < t.len() && t[i + 1] == '*' {
        proof {
            lemma_block_comment_end(t, i + 2, 1);
        }
        if block_comment_closed(t, i + 2, 1) {
            skip_unclosed(t, block_comment_end(t, i + 2, 1))
        } else {
            true
        }
    } else {
        false
    }
}

/// The tokenizer's place in its input.
struct Cursor {
    index: usize,
    current_position: usize,
    line: usize,
    column: usize,
}

/// Reads tokens from a source text, one at a time.
pub struct Tokenizer {
    input: Vec<char>,
    cursor: Cursor,
    start_line: usize,
    start_column: usize,
    string_error: Option<StringError>,
    comment_unclosed: bool,
}

/// Why a string literal could not be read.
#[derive(Debug, Clone, Copy, PartialEq, Eq, Structural)]
pub enum StringError {
    /// A backslash followed by a character that is no escape.
    InvalidEscape(char),
    /// The input ends right after a backslash.
    EofAfterBackslash,
    /// A newline inside a string that is not a backtick string.
    Newline,
    /// The input ends before the closing quote.
    Eof,
}

impl Tokenizer {
    /// The cursor is at a character index of the input, with the line, the
    /// column and the byte offset of that index.
    #[verifier::type_invariant]
    spec fn inv(&self) -> bool {
        &&& self.input@.len() <= usize::MAX / 4
        &&& self.cursor.index <= self.input@.len()
        &&& self.cursor.line == line_after(self.input@.take(self.cursor.index as int))
        &&& self.cursor.column == column_after(self.input@.take(self.cursor.index as int))
        &&& self.cursor.current_position == utf8_total(self.input@.take(self.cursor.index as int))
    }

    /// The source text.
    pub closed spec fn text(&self) -> Seq<char> {
        self.input@
    }

    /// How many characters have been read.
    pub closed spec fn offset(&self) -> nat {
        self.cursor.index as nat
    }

    pub fn new(input: &str) -> (r: Self)
        requires
            input@.len() <= usize::MAX / 4,
        ensures
            r.text() == input@,
            r.offset() == 0,
            r.string_error() is None,
            !r.comment_unclosed(),
    {
        let input = chars_of(input);
        proof {
            assert(input@.take(0) == Seq::<char>::empty());
        }
        Tokenizer {
            input,
            cursor: Cursor { index: 0, current_position: 0, line: 1, column: 1 },
            start_line: 1,
            start_column: 1,
            string_error: None,
            comment_unclosed: false,
        }
    }

    /// Why the string literal of the last token could not be read, when the
    /// last token is such a failed string literal.
    pub closed spec fn string_error(&self) -> Option<StringError> {
        self.string_error
    }

    /// Whether the comments skipped before the last token end in a `/* */`
    /// comment that is never closed.
    pub closed spec fn comment_unclosed(&self) -> bool {
        self.comment_unclosed
    }

    /// Whether the comments skipped before the last token end in a `/* */`
    /// comment that is never closed (it then runs to the end of the input).
    pub fn last_comment_unclosed(&self) -> (r: bool)
        ensures
            r == self.comment_unclosed(),
    {
        self.comment_unclosed
    }

    /// Why the string literal of the last token could not be read; `None`
    /// when the last token was no failed string literal.
    pub fn last_string_error(&self) -> (r: Option<StringError>)
        ensures
            r == self.string_error(),
    {
        self.string_error
    }

    /// Reads one character, keeping the line, the column and the byte offset.
    fn next_char(&mut self) -> (r: Option<char>)
        ensures
            final(self).text() == old(self).text(),
            old(self).offset() < old(self).text().len() ==> r == Some(old(self).text()[old(self).offset() as int])
                && final(self).offset() == old(self).offset() + 1,
            old(self).offset() >= old(self).text().len() ==> r is None && final(self).offset() == old(self).offset(),
    {
        proof {
            use_type_invariant(&*self);
        }
        let i = self.cursor.index;
        if i >= self.input.len() {
            return None;
        }
        let ch = self.input[i];
        let code = ch as u32;
        let width: usize = if code < 0x80 { 1 } else if code < 0x800 { 2 } else if code < 0x10000 { 3 } else { 4 };
        proof {
            let before = self.input@.take(i as int);
            let after = self.input@.take(i + 1);
            assert(after.drop_last() == before);
            assert(after.last() == ch);
            lemma_counters_bounded(after);
        }
        let (line, column) = if ch == '\n' {
            (self.cursor.line + 1, 1)
        } else {
            (self.cursor.line, self.cursor.column + 1)
        };
        self.cursor = Cursor { index: i + 1, current_position: self.cursor.current_position + width, line, column };
        Some(ch)
    }

    fn peek_char(&self) -> (r: Option<char>)
        ensures
            r == (if self.offset() < self.text().len() { Some(self.text()[self.offset() as int]) } else { None }),
    {
        proof {
            use_type_invariant(self);
        }
        if self.cursor.index < self.input.len() {
            Some(self.input[self.cursor.index])
        } else {
            None
        }
    }

    /// The character after the next one.
    fn peek_second(&self) -> (r: Option<char>)
        ensures
            r == (if self.offset() + 1 < self.text().len() { Some(self.text()[self.offset() + 1int]) } else { None }),
    {
        proof {
            use_type_invariant(self);
        }
        if self.cursor.index + 1 < self.input.len() {
            Some(self.input[self.cursor.index + 1])
        } else {
            None
        }
    }

    /// The line and column of the cursor.
    fn here(&self) -> (r: (usize, usize))
        ensures
            r.0 == line_after(self.text().take(self.offset() as int)),
            r.1 == column_after(self.text().take(self.offset() as int)),
    {
        proof {
            use_type_invariant(self);
        }
        (self.cursor.line, self.cursor.column)
    }

    /// Remembers the cursor as the start of the next token.
    fn mark_token_start(&mut self)
        ensures
            final(self).text() == old(self).text(),
            final(self).offset() == old(self).offset(),
            final(self).start_line == line_after(old(self).text().take(old(self).offset() as int)),
            final(self).start_column == column_after(old(self).text().take(old(self).offset() as int)),
    {
        proof {
            use_type_invariant(&*self);
        }
        let (line, column) = self.here();
        self.start_line = line;
        self.start_column = column;
    }

    /// Skips whitespace, `//` comments to the end of the line and `/* */`
    /// comments, which nest (an unclosed one runs to the end of the input).
    fn skip_whitespace_and_comments(&mut self) -> (unclosed: bool)
        ensures
            final(self).text() == old(self).text(),
            old(self).offset() <= final(self).offset() <= final(self).text().len(),
            final(self).offset() == skip_end(old(self).text(), old(self).offset() as int),
            at_token_start(final(self).text(), final(self).offset() as int),
            unclosed == skip_unclosed(old(self).text(), old(self).offset() as int),
    {
        proof {
            use_type_invariant(&*self);
        }
        let ghost t = self.text();
        let mut unclosed: bool = false;
        loop
            invariant
                self.text() == t,
                t == old(self).text(),
                old(self).offset() <= self.offset() <= self.text().len(),
                skip_end(t, self.offset() as int) == skip_end(t, old(self).offset() as int),
                (unclosed || skip_unclosed(t, self.offset() as int)) == skip_unclosed(t, old(self).offset() as int),
            ensures
                self.text() == old(self).text(),
                old(self).offset() <= self.offset() <= self.text().len(),
                self.offset() == skip_end(t, old(self).offset() as int),
                at_token_start(self.text(), self.offset() as int),
                (unclosed || skip_unclosed(t, self.offset() as int)) == skip_unclosed(t, old(self).offset() as int),
                !skip_unclosed(t, self.offset() as int),
            decreases self.text().len() - self.offset(),
        {
            proof {
                use_type_invariant(&*self);
            }
            let ghost start = self.offset();
            match self.peek_char() {
                Some(ch) => {
                    if is_whitespace(ch) {
                        self.next_char();
                        self.mark_token_start();
                    } else if ch == '/' {
                        match self.peek_second() {
                            Some('/') => {
                                self.next_char();
                                self.next_char();
                                loop
                                    invariant
                                        self.text() == t,
                                        t == old(self).text(),
                                        old(self).offset() <= self.offset() <= self.text().len(),
                                        start + 2 <= self.offset(),
                                        line_comment_end(t, self.offset() as int) == line_comment_end(t, start + 2int),
                                    ensures
                                        self.text() == t,
                                        old(self).offset() <= self.offset() <= self.text().len(),
                                        start + 2 <= self.offset(),
                                        self.offset() == line_comment_end(t, start + 2int),
                                    decreases self.text().len() - self.offset(),
                                {
                                    proof {
                                        use_type_invariant(&*self);
                                    }
                                    match self.peek_char() {
                                        Some(c) => {
                                            if c == '\n' {
                                                break;
                                            }
                                            self.next_char();
                                        },
                                        None => {
                                            break;
                                        },
                                    }
                                }
                                self.mark_token_start();
                            },
                            Some('*') => {
                                self.next_char();
                                self.next_char();
                                let mut nesting: usize = 1;
                                let mut closed: bool = false;
                                loop
                                    invariant_except_break
                                        block_comment_end(t, self.offset() as int, nesting as nat) == block_comment_end(t, start + 2int, 1),
                                        block_comment_closed(t, self.offset() as int, nesting as nat) == block_comment_closed(t, start + 2int, 1),
                                        !closed,
                                    invariant
                                        self.text() == t,
                                        t == old(self).text(),
                                        old(self).offset() <= self.offset() <= self.text().len(),
                                        1 <= nesting <= self.offset(),
                                        self.text().len() <= usize::MAX / 4,
                                        start + 2 <= self.offset(),
                                    ensures
                                        self.text() == t,
                                        old(self).offset() <= self.offset() <= self.text().len(),
                                        start + 2 <= self.offset(),
                                        self.offset() == block_comment_end(t, start + 2int, 1),
                                        closed == block_comment_closed(t, start + 2int, 1),
                                    decreases self.text().len() - self.offset(),
                                {
                                    proof {
                                        use_type_invariant(&*self);
                                    }
                                    match self.next_char() {
                                        Some(c) => {
                                            if c == '*' {
                                                if self.peek_char() == Some('/') {
                                                    self.next_char();
                                                    if nesting == 1 {
                                                        closed = true;
                                                        break;
                                                    }
                                                    nesting = nesting - 1;
                                                }
                                            } else if c == '/' {
                                                if self.peek_char() == Some('*') {
                                                    self.next_char();
                                                    nesting = nesting + 1;
                                                }
                                            }
                                        },
                                        None => {
                                            break;
                                        },
                                    }
                                }
                                self.mark_token_start();
                                if !closed {
                                    unclosed = true;
                                }
                            },
                            _ => {
                                break;
                            },
                        }
                    } else {
                        break;
                    }
                },
                None => {
                    break;
                },
            }
        }
        unclosed
    }
}

impl Tokenizer {
    /// Reads the rest of an identifier whose first character, `first`, was
    /// just read.
    fn read_identifier(&mut self, first: char) -> (r: String)
        requires
            old(self).offset() >= 1,
            old(self).text()[old(self).offset() - 1] == first,
        ensures
            final(self).text() == old(self).text(),
            final(self).offset() <= final(self).text().len(),
            ({
                let rest = old(self).text().skip(old(self).offset() - 1);
                let m = 1 + run_len(rest.skip(1), |x: char| ident_continue(x));
                &&& final(self).offset() == old(self).offset() - 1 + m
                &&& r@ == rest.take(m as int)
            }),
    {
        proof {
            use_type_invariant(&*self);
        }
        let ghost begin = (self.offset() - 1) as int;
        let ghost text = self.text();
        let mut ident: Vec<char> = Vec::new();
        ident.push(first);
        proof {
            assert(ident@ =~= text.subrange(begin, self.offset() as int));
        }
        loop
            invariant
                self.text() == text,
                0 <= begin,
                begin + 1 <= self.offset() <= text.len(),
                ident@ == text.subrange(begin, self.offset() as int),
                forall|j: int| begin + 1 <= j < self.offset() ==> ident_continue(#[trigger] text[j]),
            ensures
                self.text() == text,
                0 <= begin,
                begin + 1 <= self.offset() <= text.len(),
                ident@ == text.subrange(begin, self.offset() as int),
                forall|j: int| begin + 1 <= j < self.offset() ==> ident_continue(#[trigger] text[j]),
                self.offset() == text.len() || !ident_continue(text[self.offset() as int]),
            decreases text.len() - self.offset(),
        {
            match self.peek_char() {
                Some(ch) => {
                    if is_alphanumeric(ch) || ch == '_' {
                        let ghost before = self.offset();
                        let ghost old_ident = ident@;
                        self.next_char();
                        ident.push(ch);
                        proof {
                            assert(ch == text[before as int]);
                            assert(self.offset() == before + 1);
                            assert(ident@ == old_ident.push(ch));
                            assert(text.subrange(begin, before + 1int) =~= text.subrange(begin, before as int).push(ch));
                            assert(ident@ =~= text.subrange(begin, self.offset() as int));
                        }
                    } else {
                        break;
                    }
                },
                None => {
                    break;
                },
            }
        }
        proof {
            let rest = text.skip(begin);
            let n = (self.offset() - begin - 1) as nat;
            let t = rest.skip(1);
            assert forall|j: int| 0 <= j < n implies ident_continue(#[trigger] t[j]) by {
                assert(t[j] == text[begin + 1 + j]);
            }
            if n < t.len() {
                assert(t[n as int] == text[self.offset() as int]);
            }
            lemma_run_len(t, |x: char| ident_continue(x), n);
            assert(rest.take(1 + n as int) == text.subrange(begin, self.offset() as int));
        }
        string_of_chars(&ident)
    }

    /// Reads the ASCII digits from the cursor on.
    fn read_digits(&mut self, digits: &mut Vec<char>)
        ensures
            final(self).text() == old(self).text(),
            final(self).offset() <= final(self).text().len(),
            ({
                let n = run_len(old(self).text().skip(old(self).offset() as int), |x: char| is_digit(x));
                &&& final(self).offset() == old(self).offset() + n
                &&& final(digits)@ == old(digits)@ + old(self).text().subrange(old(self).offset() as int, final(self).offset() as int)
            }),
    {
        proof {
            use_type_invariant(&*self);
        }
        let ghost begin = self.offset() as int;
        let ghost text = self.text();
        let ghost start = digits@;
        loop
            invariant
                self.text() == text,
                0 <= begin <= self.offset() <= text.len(),
                digits@ == start + text.subrange(begin, self.offset() as int),
                forall|j: int| begin <= j < self.offset() ==> is_digit(#[trigger] text[j]),
            ensures
                self.text() == text,
                0 <= begin <= self.offset() <= text.len(),
                digits@ == start + text.subrange(begin, self.offset() as int),
                forall|j: int| begin <= j < self.offset() ==> is_digit(#[trigger] text[j]),
                self.offset() == text.len() || !is_digit(text[self.offset() as int]),
            decreases text.len() - self.offset(),
        {
            match self.peek_char() {
                Some(ch) => {
                    if '0' <= ch && ch <= '9' {
                        self.next_char();
                        digits.push(ch);
                        proof {
                            assert(digits@ =~= start + text.subrange(begin, self.offset() as int));
                        }
                    } else {
                        break;
                    }
                },
                None => {
                    break;
                },
            }
        }
        proof {
            let rest = text.skip(begin);
            let n = (self.offset() - begin) as nat;
            assert forall|j: int| 0 <= j < n implies is_digit(#[trigger] rest[j]) by {
                assert(rest[j] == text[begin + j]);
            }
            if n < rest.len() {
                assert(rest[n as int] == text[self.offset() as int]);
            }
            lemma_run_len(rest, |x: char| is_digit(x), n);
        }
    }

    /// Reads a number whose first digit, `first`, was just read: digits, then
    /// a fraction where a `.` is followed by a digit. Returns the text and
    /// whether it has a fraction.
    fn read_number(&mut self, first: char) -> (r: (String, bool))
        requires
            old(self).offset() >= 1,
            old(self).text()[old(self).offset() - 1] == first,
            is_digit(first),
        ensures
            final(self).text() == old(self).text(),
            final(self).offset() <= final(self).text().len(),
            ({
                let rest = old(self).text().skip(old(self).offset() - 1);
                let whole = run_len(rest, |x: char| is_digit(x));
                let fraction = rest.len() > whole + 1 && rest[whole as int] == '.' && is_digit(rest[whole + 1int]);
                let m = if fraction { whole + 1 + run_len(rest.skip(whole + 1int), |x: char| is_digit(x)) } else { whole };
                &&& r.1 == fraction
                &&& final(self).offset() == old(self).offset() - 1 + m
                &&& r.0@ == rest.take(m as int)
            }),
    {
        proof {
            use_type_invariant(&*self);
        }
        let ghost begin = (self.offset() - 1) as int;
        let ghost text = self.text();
        let ghost rest = text.skip(begin);
        let mut number: Vec<char> = Vec::new();
        number.push(first);
        proof {
            assert(number@ =~= text.subrange(begin, self.offset() as int));
        }
        let ghost after_first = self.offset();
        let ghost held = number@;
        self.read_digits(&mut number);
        proof {
            assert(text.subrange(begin, after_first as int) + text.subrange(after_first as int, self.offset() as int)
                =~= text.subrange(begin, self.offset() as int));
            let tail = text.skip(after_first as int);
            assert(rest.skip(1) == tail);
            assert(run_len(rest, |x: char| is_digit(x)) == 1 + run_len(tail, |x: char| is_digit(x)));
            assert(number@ =~= text.subrange(begin, self.offset() as int));
        }
        let ghost whole = run_len(rest, |x: char| is_digit(x));
        let mut fraction = false;
        if self.peek_char() == Some('.') {
            match self.peek_second() {
                Some(next) => {
                    if '0' <= next && next <= '9' {
                        self.next_char();
                        number.push('.');
                        let ghost after_dot = self.offset();
                        proof {
                            assert(text.subrange(begin, after_dot - 1) .push('.') =~= text.subrange(begin, after_dot as int));
                            assert(number@ =~= text.subrange(begin, self.offset() as int));
                            assert(text.skip(after_dot as int) == rest.skip(whole + 1int));
                        }
                        self.read_digits(&mut number);
                        proof {
                            assert(text.subrange(begin, after_dot as int) + text.subrange(after_dot as int, self.offset() as int)
                                =~= text.subrange(begin, self.offset() as int));
                        }
                        fraction = true;
                    }
                },
                None => {},
            }
        }
        proof {
            assert(rest.len() > whole + 1 ==> rest[whole as int] == text[begin + whole] && rest[whole + 1int] == text[begin + whole + 1]);
            assert(number@ =~= text.subrange(begin, self.offset() as int));
            assert(rest.take(self.offset() - begin) == text.subrange(begin, self.offset() as int));
        }
        (string_of_chars(&number), fraction)
    }
}

proof fn lemma_after_prefix_compose(a: Seq<char>, u: nat, b: Seq<char>, v: nat, r: StringScan)
    ensures
        after_prefix(a, u, after_prefix(b, v, r)) == after_prefix(a + b, u + v, r),
{
    match r {
        StringScan::Done(c, w) => {
            assert(a + (b + c) =~= (a + b) + c);
        },
        StringScan::Failed(w, _) => {},
    }
}

proof fn lemma_after_prefix_empty(r: StringScan)
    ensures
        after_prefix(Seq::empty(), 0, r) == r,
{
    match r {
        StringScan::Done(c, w) => {
            assert(Seq::<char>::empty() + c =~= c);
        },
        StringScan::Failed(w, _) => {},
    }
}

/// The position of a token that starts at `start` and ends at `end`.
pub open spec fn token_position(text: Seq<char>, start: int, end: int) -> Position {
    Position {
        start_line: line_after(text.take(start)) as usize,
        start_column: column_after(text.take(start)) as usize,
        end_line: line_after(text.take(end)) as usize,
        end_column: column_after(text.take(end)) as usize,
    }
}

/// `toks` are the tokens of `t` from offset `i` to its end, in order, each
/// with its position; the end of the input gives no token.
pub open spec fn tokenizes(t: Seq<char>, i: int, toks: Seq<(Token, Position)>) -> bool
    decreases toks.len(),
{
    let s = skip_end(t, i);
    if toks.len() == 0 {
        s == t.len()
    } else {
        exists|e: int| #![trigger token_position(t, s, e)]
            s < e <= t.len()
            && at_token_start(t, s)
            && lexes(t.skip(s), toks[0].0, (e - s) as nat)
            && toks[0].1 == token_position(t, s, e)
            && tokenizes(t, e, toks.drop_first())
    }
}

impl Tokenizer {
    /// Reads the body of a string literal whose opening `quote` was just
    /// read, up to and including the closing quote; handles the escapes
    /// `\n \t \r \\ \' \" \``. Only backtick strings may span lines.
    fn read_string(&mut self, quote: char) -> (r: Result<String, StringError>)
        ensures
            final(self).text() == old(self).text(),
            final(self).offset() <= final(self).text().len(),
            match scan_string(old(self).text().skip(old(self).offset() as int), quote) {
                StringScan::Done(c, u) => (r matches Ok(s) && s@ == c) && final(self).offset() == old(self).offset() + u,
                StringScan::Failed(u, e) => r == Err::<String, StringError>(e) && final(self).offset() == old(self).offset() + u,
            },
    {
        proof {
            use_type_invariant(&*self);
        }
        let ghost begin = self.offset() as int;
        let ghost text = self.text();
        let mut content: Vec<char> = Vec::new();
        proof {
            lemma_after_prefix_empty(scan_string(text.skip(begin), quote));
        }
        loop
            invariant
                self.text() == text,
                text == old(self).text(),
                begin == old(self).offset(),
                0 <= begin <= self.offset() <= text.len(),
                scan_string(text.skip(begin), quote)
                    == after_prefix(content@, (self.offset() - begin) as nat, scan_string(text.skip(self.offset() as int), quote)),
            decreases text.len() - self.offset(),
        {
            let ghost at = self.offset() as int;
            let ghost body = text.skip(at);
            let ghost held = content@;
            match self.next_char() {
                Some(ch) => {
                    assert(body[0] == ch);
                    if ch == quote {
                        proof {
                            assert(content@ + Seq::<char>::empty() =~= content@);
                        }
                        return Ok(string_of_chars(&content));
                    } else if ch == '\\' {
                        match self.next_char() {
                            Some(e) => {
                                assert(body[1] == e);
                                let x = if e == 'n' {
                                    '\n'
                                } else if e == 't' {
                                    '\t'
                                } else if e == 'r' {
                                    '\r'
                                } else if e == '\\' {
                                    '\\'
                                } else if e == '\'' {
                                    '\''
                                } else if e == '"' {
                                    '"'
                                } else if e == '`' {
                                    '`'
                                } else {
                                    return Err(StringError::InvalidEscape(e));
                                };
                                proof {
                                    assert(escaped(e) == Some(x));
                                    assert(body.skip(2) =~= text.skip(self.offset() as int));
                                    lemma_after_prefix_compose(content@, (at - begin) as nat, seq![x], 2, scan_string(body.skip(2), quote));
                                    assert(scan_string(body, quote) == after_prefix(seq![x], 2, scan_string(body.skip(2), quote)));
                                }
                                content.push(x);
                                proof {
                                    assert(content@ =~= held + seq![x]);
                                }
                            },
                            None => {
                                return Err(StringError::EofAfterBackslash);
                            },
                        }
                    } else if ch == '\n' && quote != '`' {
                        return Err(StringError::Newline);
                    } else {
                        proof {
                            assert(body.skip(1) =~= text.skip(self.offset() as int));
                            lemma_after_prefix_compose(content@, (at - begin) as nat, seq![ch], 1, scan_string(body.skip(1), quote));
                            assert(scan_string(body, quote) == after_prefix(seq![ch], 1, scan_string(body.skip(1), quote)));
                        }
                        content.push(ch);
                        proof {
                            assert(content@ =~= held + seq![ch]);
                        }
                    }
                },
                None => {
                    return Err(StringError::Eof);
                },
            }
        }
    }
}

impl Tokenizer {
    /// The position from the given start to the cursor.
    fn current_token_pos(&self, start_line: usize, start_column: usize) -> (r: Position)
        ensures
            r.start_line == start_line,
            r.start_column == start_column,
            r.end_line == line_after(self.text().take(self.offset() as int)),
            r.end_column == column_after(self.text().take(self.offset() as int)),
    {
        let (line, column) = self.here();
        Position { start_line, start_column, end_line: line, end_column: column }
    }

    /// Skips whitespace and comments, then reads the next token and returns
    /// it with its position; at the end of the input the token is `Eof`.
    /// A string literal that cannot be read is an `Illegal` token.
    pub fn next_token(&mut self) -> (r: (Token, Position))
        ensures
            final(self).text() == old(self).text(),
            old(self).offset() <= final(self).offset() <= final(self).text().len(),
            exists|s: int| #![trigger token_position(final(self).text(), s, final(self).offset() as int)]
                old(self).offset() <= s <= final(self).offset()
                && s == skip_end(final(self).text(), old(self).offset() as int)
                && at_token_start(final(self).text(), s)
                && lexes(final(self).text().skip(s), r.0, (final(self).offset() - s) as nat)
                && r.1 == token_position(final(self).text(), s, final(self).offset() as int)
                && final(self).string_error() == string_error_at(final(self).text(), s),
            final(self).comment_unclosed() == skip_unclosed(final(self).text(), old(self).offset() as int),
    {
        proof {
            use_type_invariant(&*self);
        }
        let mut err: Option<StringError> = None;
        let unclosed = self.skip_whitespace_and_comments();
        self.mark_token_start();
        let start_line = self.start_line;
        let start_column = self.start_column;
        let ghost s = self.offset() as int;
        let ghost text = self.text();
        let ghost rest = text.skip(s);
        proof {
            if s < text.len() {
                assert(rest[0] == text[s]);
            }
            if s + 1 < text.len() {
                assert(rest[1] == text[s + 1]);
            }
        }
        match self.next_char() {
            Some(ch) => {
                let token = if ch == '(' {
                    Token::Punctuation(PunctuationToken::LeftParen)
                } else if ch == ')' {
                    Token::Punctuation(PunctuationToken::RightParen)
                } else if ch == '{' {
                    Token::Punctuation(PunctuationToken::LeftBrace)
                } else if ch == '}' {
                    Token::Punctuation(PunctuationToken::RightBrace)
                } else if ch == '[' {
                    Token::Punctuation(PunctuationToken::LeftBracket)
                } else if ch == ']' {
                    Token::Punctuation(PunctuationToken::RightBracket)
                } else if ch == ',' {
                    Token::Punctuation(PunctuationToken::Comma)
                } else if ch == '.' {
                    Token::Punctuation(PunctuationToken::Dot)
                } else if ch == ':' {
                    Token::Punctuation(PunctuationToken::Colon)
                } else if ch == ';' {
                    Token::Punctuation(PunctuationToken::Semicolon)
                } else if ch == '+' {
                    Token::Operator(OperatorToken::Plus)
                } else if ch == '*' {
                    Token::Operator(OperatorToken::Multiply)
                } else if ch == '/' {
                    Token::Operator(OperatorToken::Divide)
                } else if ch == '%' {
                    Token::Operator(OperatorToken::Modulo)
                } else if ch == '-' {
                    if self.peek_char() == Some('>') {
                        self.next_char();
                        Token::Punctuation(PunctuationToken::Arrow)
                    } else {
                        Token::Operator(OperatorToken::Minus)
                    }
                } else if ch == '=' {
                    if self.peek_char() == Some('=') {
                        self.next_char();
                        Token::Operator(OperatorToken::Equal)
                    } else {
                        Token::Assignment(AssignmentToken::Assign)
                    }
                } else if ch == '!' {
                    if self.peek_char() == Some('=') {
                        self.next_char();
                        Token::Operator(OperatorToken::NotEqual)
                    } else {
                        Token::Operator(OperatorToken::Not)
                    }
                } else if ch == '<' {
                    if self.peek_char() == Some('=') {
                        self.next_char();
                        Token::Operator(OperatorToken::LessEqual)
                    } else {
                        Token::Operator(OperatorToken::LessThan)
                    }
                } else if ch == '>' {
                    if self.peek_char() == Some('=') {
                        self.next_char();
                        Token::Operator(OperatorToken::GreaterEqual)
                    } else {
                        Token::Operator(OperatorToken::GreaterThan)
                    }
                } else if ch == '&' {
                    if self.peek_char() == Some('&') {
                        self.next_char();
                        Token::Operator(OperatorToken::And)
                    } else {
                        Token::Special(SpecialToken::Illegal)
                    }
                } else if ch == '|' {
                    if self.peek_char() == Some('|') {
                        self.next_char();
                        Token::Operator(OperatorToken::Or)
                    } else {
                        Token::Special(SpecialToken::Illegal)
                    }
                } else if ch == '"' || ch == '\'' || ch == '`' {
                    proof {
                        assert(rest.skip(1) =~= text.skip(s + 1));
                    }
                    let read = self.read_string(ch);
                    proof {
                        assert(text[s] == ch);
                        assert(match read { Ok(_) => string_error_at(text, s) is None, Err(e) => string_error_at(text, s) == Some(e) });
                    }
                    match read {
                        Ok(content) => Token::String(content),
                        Err(e) => {
                            err = Some(e);
                            Token::Special(SpecialToken::Illegal)
                        },
                    }
                } else if '0' <= ch && ch <= '9' {
                    let (number, fraction) = self.read_number(ch);
                    if fraction {
                        Token::Float(number)
                    } else {
                        Token::Int(number)
                    }
                } else if is_alphabetic(ch) || ch == '_' {
                    let ident = self.read_identifier(ch);
                    match lookup_keyword(ident.as_str()) {
                        Some(keyword) => Token::Keyword(keyword),
                        None => Token::Identifier(ident),
                    }
                } else {
                    Token::Special(SpecialToken::Illegal)
                };
                let pos = self.current_token_pos(start_line, start_column);
                proof {
                    assert(pos == token_position(text, s, self.offset() as int));
                    use_type_invariant(&*self);
                    assert(text[s] == ch);
                    assert(err == string_error_at(text, s));
                }
                self.string_error = err;
                self.comment_unclosed = unclosed;
                proof {
                    assert(self.text() == text);
                    assert(self.string_error() == string_error_at(self.text(), s));
                    assert(lexes(self.text().skip(s), token, (self.offset() - s) as nat));
                    assert(at_token_start(self.text(), s));
                    assert(s == skip_end(self.text(), old(self).offset() as int));
                    assert(old(self).offset() <= s <= self.offset());
                }
                (token, pos)
            },
            None => {
                let pos = self.current_token_pos(start_line, start_column);
                proof {
                    assert(pos == token_position(text, s, self.offset() as int));
                    use_type_invariant(&*self);
                }
                self.string_error = None;
                self.comment_unclosed = unclosed;
                proof {
                    assert(self.text() == text);
                    assert(self.string_error() == string_error_at(self.text(), s));
                }
                (Token::Special(SpecialToken::Eof), pos)
            },
        }
    }

    /// The next token and its position, or `None` at the end of the input.
    pub fn next(&mut self) -> (r: Option<(Token, Position)>)
        ensures
            final(self).text() == old(self).text(),
            old(self).offset() <= final(self).offset() <= final(self).text().len(),
            r is None ==> final(self).offset() == final(self).text().len(),
            r is None ==> skip_end(old(self).text(), old(self).offset() as int) == old(self).text().len(),
            r is Some ==> final(self).offset() > old(self).offset(),
            r matches Some(p) ==> !(p.0 == Token::Special(SpecialToken::Eof)),
            r matches Some(p) ==> exists|s: int| #![trigger token_position(final(self).text(), s, final(self).offset() as int)]
                old(self).offset() <= s <= final(self).offset()
                && s == skip_end(final(self).text(), old(self).offset() as int)
                && at_token_start(final(self).text(), s)
                && lexes(final(self).text().skip(s), p.0, (final(self).offset() - s) as nat)
                && p.1 == token_position(final(self).text(), s, final(self).offset() as int),
    {
        let (token, position) = self.next_token();
        match token {
            Token::Special(SpecialToken::Eof) => None,
            _ => Some((token, position)),
        }
    }
}

} // verus!
