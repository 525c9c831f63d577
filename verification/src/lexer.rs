//! The lexer: source characters to located tokens.
//!
//! The lexer makes one forward pass over an indexable buffer of characters
//! with a cursor and one character of lookahead. What it recognises is
//! stated by `scan`, a function of the source and a position; the places of
//! tokens are stated by `line_at` and `column_at`.

use crate::text::chars_of;
use crate::token::{tokens_view, Decimal, Kind, Token, TokenKind, TokenView};
use vstd::prelude::*;
use vstd::string::*;

verus! {

/// Why a piece of source text is no token.
#[derive(Clone, Copy, Debug, PartialEq, Eq, Structural)]
pub enum LexErrorKind {
    /// A character that starts no token, or that no escape is known for.
    UnexpectedChar,
    /// A string literal without its closing quote.
    UnterminatedString,
    /// `#\` at the end of the input.
    UnterminatedChar,
    /// A numeric literal too large for its token to hold.
    NumberOutOfRange,
}

/// A lexical error: the offending character and where it stands.
#[derive(Clone, Copy, Debug, PartialEq, Eq, Structural)]
pub struct LexError {
    pub kind: LexErrorKind,
    pub ch: char,
    pub line: usize,
    pub column: usize,
}

/// A cursor over the characters of one source text.
pub struct Lexer {
    source: Vec<char>,
    column: usize,
    index: usize,
    line: usize,
}

/// What the lexer finds at one position of the source.
pub enum Scan {
    /// A token, and the position after it.
    Token { kind: Kind, next: int },
    /// Whitespace or a comment, and the position after it.
    Skip { next: int },
    /// Nothing the lexer knows, with the position of the offending character.
    Error { reason: LexErrorKind, at: int },
}

/// The value and the end of a run of digits.
pub struct DigitRun {
    pub value: nat,
    pub end: int,
}

/// What follows the opening quote of a string literal.
pub enum StringScan {
    /// The decoded text, and the position after the closing quote.
    Closed { text: Seq<char>, next: int },
    /// The input ends inside the literal.
    Unterminated,
    /// A backslash before the character at `at`, which no escape is known for.
    BadEscape { at: int },
}

/// The character at position `i`, and `'\0'` past either end.
pub open spec fn char_at(src: Seq<char>, i: int) -> char {
    if 0 <= i < src.len() {
        src[i]
    } else {
        '\0'
    }
}

/// The decimal digits.
pub open spec fn is_digit(c: char) -> bool {
    '0' <= c <= '9'
}

/// The number that a decimal digit stands for.
pub open spec fn digit_value(c: char) -> nat {
    (c as int - '0' as int) as nat
}

/// The letters `a` to `z` and `A` to `Z`.
pub open spec fn is_letter(c: char) -> bool {
    'a' <= c <= 'z' || 'A' <= c <= 'Z'
}

/// The characters that end an identifier.
pub open spec fn is_delimiter(c: char) -> bool {
    c == ' ' || c == '\t' || c == '\n' || c == '(' || c == ')' || c == '"' || c == ';'
}

/// The characters that may start an identifier: letters and the extended
/// identifier characters.
pub open spec fn is_identifier_start(c: char) -> bool {
    is_letter(c) || c == '!' || c == '$' || c == '%' || c == '&' || c == ':' || c == '<' || c == '='
        || c == '>' || c == '?' || c == '^' || c == '_' || c == '~' || c == '.'
}

/// The character that a backslash and `c` stand for inside a string literal.
pub open spec fn escape_value(c: char) -> Option<char> {
    if c == 'n' {
        Some('\n')
    } else if c == 't' {
        Some('\t')
    } else if c == '\\' {
        Some('\\')
    } else if c == '"' {
        Some('"')
    } else {
        None
    }
}

/// A count clipped to what a `usize` holds.
pub open spec fn clamp(n: nat) -> usize {
    if n > usize::MAX {
        usize::MAX
    } else {
        n as usize
    }
}

/// The line of position `i`: one more than the newlines before it.
pub open spec fn line_at(src: Seq<char>, i: int) -> nat
    decreases i,
{
    if i <= 0 || i > src.len() {
        1
    } else if src[i - 1] == '\n' {
        line_at(src, i - 1) + 1
    } else {
        line_at(src, i - 1)
    }
}

/// The column of position `i`: one more than the characters between the
/// last newline before it and `i`.
pub open spec fn column_at(src: Seq<char>, i: int) -> nat
    decreases i,
{
    if i <= 0 || i > src.len() {
        1
    } else if src[i - 1] == '\n' {
        1
    } else {
        column_at(src, i - 1) + 1
    }
}

/// A token of kind `kind` that starts at position `i`.
pub open spec fn located(src: Seq<char>, kind: Kind, i: int) -> TokenView {
    TokenView { kind, line: clamp(line_at(src, i)), column: clamp(column_at(src, i)) }
}

/// The error of kind `kind` about the character at position `at`.
pub open spec fn error_at(src: Seq<char>, kind: LexErrorKind, at: int) -> LexError {
    LexError {
        kind,
        ch: char_at(src, at),
        line: clamp(line_at(src, at)),
        column: clamp(column_at(src, at)),
    }
}

/// The run of digits that starts at `j`, read as a decimal number that
/// continues `acc`.
pub open spec fn digit_run(src: Seq<char>, j: int, acc: nat) -> DigitRun
    decreases src.len() - j,
{
    if 0 <= j < src.len() && is_digit(src[j]) {
        digit_run(src, j + 1, acc * 10 + digit_value(src[j]))
    } else {
        DigitRun { value: acc, end: j }
    }
}

/// The first position from `j` on that holds a delimiter, or the end of the
/// source.
pub open spec fn identifier_end(src: Seq<char>, j: int) -> int
    decreases src.len() - j,
{
    if 0 <= j < src.len() && !is_delimiter(src[j]) {
        identifier_end(src, j + 1)
    } else {
        j
    }
}

/// The first position from `j` on that holds a newline, or the end of the
/// source.
pub open spec fn comment_end(src: Seq<char>, j: int) -> int
    decreases src.len() - j,
{
    if 0 <= j < src.len() && src[j] != '\n' {
        comment_end(src, j + 1)
    } else {
        j
    }
}

/// The rest of a string literal from position `j`, after the decoded
/// characters `text`.
pub open spec fn string_body(src: Seq<char>, j: int, text: Seq<char>) -> StringScan
    decreases src.len() - j,
{
    if j < 0 || j >= src.len() {
        StringScan::Unterminated
    } else if src[j] == '"' {
        StringScan::Closed { text, next: j + 1 }
    } else if src[j] == '\\' {
        if j + 1 >= src.len() {
            StringScan::Unterminated
        } else {
            match escape_value(src[j + 1]) {
                Some(e) => string_body(src, j + 2, text.push(e)),
                None => StringScan::BadEscape { at: j + 1 },
            }
        }
    } else {
        string_body(src, j + 1, text.push(src[j]))
    }
}

/// The token that the text of an identifier stands for: a keyword's own
/// token, the dot, or an identifier.
pub open spec fn classify_word(text: Seq<char>) -> Kind {
    if text == "define"@ {
        Kind::Define
    } else if text == "lambda"@ {
        Kind::Lambda
    } else if text == "set!"@ {
        Kind::SetBang
    } else if text == "begin"@ {
        Kind::Begin
    } else if text == "cond"@ {
        Kind::Cond
    } else if text == "and"@ {
        Kind::And
    } else if text == "or"@ {
        Kind::Or
    } else if text == "letrec"@ {
        Kind::LetRec
    } else if text == "else"@ {
        Kind::Else
    } else if text == "if"@ {
        Kind::If
    } else if text == "=>"@ {
        Kind::Arrow
    } else if text == "..."@ {
        Kind::Ellipsis
    } else if text == "."@ {
        Kind::Dot
    } else {
        Kind::Identifier(text)
    }
}

/// What `#` at position `i` introduces.
pub open spec fn scan_hash(src: Seq<char>, i: int) -> Scan {
    let c1 = char_at(src, i + 1);
    if c1 == 't' {
        Scan::Token { kind: Kind::True, next: i + 2 }
    } else if c1 == 'f' {
        Scan::Token { kind: Kind::False, next: i + 2 }
    } else if c1 == '(' {
        Scan::Token { kind: Kind::HashLParen, next: i + 2 }
    } else if c1 == '\\' {
        if i + 2 < src.len() {
            Scan::Token { kind: Kind::Char(src[i + 2]), next: i + 3 }
        } else {
            Scan::Error { reason: LexErrorKind::UnterminatedChar, at: i }
        }
    } else {
        Scan::Error { reason: LexErrorKind::UnexpectedChar, at: i }
    }
}

/// The string literal whose opening quote is at position `i`.
pub open spec fn scan_string(src: Seq<char>, i: int) -> Scan {
    match string_body(src, i + 1, Seq::empty()) {
        StringScan::Closed { text, next } => Scan::Token { kind: Kind::String(text), next },
        StringScan::Unterminated => Scan::Error { reason: LexErrorKind::UnterminatedString, at: i },
        StringScan::BadEscape { at } => Scan::Error { reason: LexErrorKind::UnexpectedChar, at },
    }
}

/// The numeric literal at position `i`: an optional sign, a run of digits,
/// and, where a `.` follows them, a further run of digits that makes the
/// literal a decimal.
pub open spec fn scan_number(src: Seq<char>, i: int) -> Scan {
    let negative = char_at(src, i) == '-';
    let first = if char_at(src, i) == '+' || char_at(src, i) == '-' {
        i + 1
    } else {
        i
    };
    let whole = digit_run(src, first, 0);
    if char_at(src, whole.end) == '.' {
        let fraction = digit_run(src, whole.end + 1, whole.value);
        let scale = fraction.end - (whole.end + 1);
        if fraction.value <= u64::MAX && scale <= u32::MAX {
            Scan::Token {
                kind: Kind::Float(
                    Decimal { negative, digits: fraction.value as u64, scale: scale as u32 },
                ),
                next: fraction.end,
            }
        } else {
            Scan::Error { reason: LexErrorKind::NumberOutOfRange, at: i }
        }
    } else {
        let value: int = if negative {
            -(whole.value as int)
        } else {
            whole.value as int
        };
        if i64::MIN <= value <= i64::MAX {
            Scan::Token { kind: Kind::Number(value as i64), next: whole.end }
        } else {
            Scan::Error { reason: LexErrorKind::NumberOutOfRange, at: i }
        }
    }
}

/// The identifier or keyword that starts at position `i`.
pub open spec fn scan_word(src: Seq<char>, i: int) -> Scan {
    let end = identifier_end(src, i);
    Scan::Token { kind: classify_word(src.subrange(i, end)), next: end }
}

/// What the lexer finds at position `i` of `src`. At the end of the source
/// it finds `Eof`, which takes up no character.
pub open spec fn scan(src: Seq<char>, i: int) -> Scan {
    let c = char_at(src, i);
    let c1 = char_at(src, i + 1);
    if i < 0 || i >= src.len() {
        Scan::Token { kind: Kind::Eof, next: i }
    } else if c == '(' {
        Scan::Token { kind: Kind::LParen, next: i + 1 }
    } else if c == ')' {
        Scan::Token { kind: Kind::RParen, next: i + 1 }
    } else if c == '\'' {
        Scan::Token { kind: Kind::Quote, next: i + 1 }
    } else if c == '`' {
        Scan::Token { kind: Kind::QuasiQuote, next: i + 1 }
    } else if c == ',' {
        if c1 == '@' {
            Scan::Token { kind: Kind::CommaAt, next: i + 2 }
        } else {
            Scan::Token { kind: Kind::Comma, next: i + 1 }
        }
    } else if c == ' ' || c == '\t' || c == '\n' {
        Scan::Skip { next: i + 1 }
    } else if c == ';' {
        Scan::Skip { next: comment_end(src, i + 1) }
    } else if c == '#' {
        scan_hash(src, i)
    } else if c == '"' {
        scan_string(src, i)
    } else if is_digit(c) || ((c == '+' || c == '-') && is_digit(c1)) {
        scan_number(src, i)
    } else if c == '+' {
        Scan::Token { kind: Kind::Plus, next: i + 1 }
    } else if c == '-' {
        Scan::Token { kind: Kind::Minus, next: i + 1 }
    } else if c == '*' {
        Scan::Token { kind: Kind::Star, next: i + 1 }
    } else if c == '/' {
        Scan::Token { kind: Kind::Slash, next: i + 1 }
    } else if is_identifier_start(c) {
        scan_word(src, i)
    } else {
        Scan::Error { reason: LexErrorKind::UnexpectedChar, at: i }
    }
}

/// The tokens of `src` from position `i` to its end, after the tokens
/// `done`, or the first lexical error.
pub open spec fn lex_from(src: Seq<char>, i: int, done: Seq<TokenView>) -> Result<
    Seq<TokenView>,
    LexError,
>
    decreases src.len() - i,
{
    if i < 0 || i >= src.len() {
        Ok(done)
    } else {
        proof {
            lemma_scan_advances(src, i);
        }
        match scan(src, i) {
            Scan::Token { kind, next } => lex_from(src, next, done.push(located(src, kind, i))),
            Scan::Skip { next } => lex_from(src, next, done),
            Scan::Error { reason, at } => Err(error_at(src, reason, at)),
        }
    }
}

/// The tokens of `src` from position `i` on: those of `lex_from`, then one
/// `Eof` placed at the end of the text.
pub open spec fn spec_lex(src: Seq<char>, i: int) -> Result<Seq<TokenView>, LexError> {
    match lex_from(src, i, Seq::empty()) {
        Ok(tokens) => Ok(tokens.push(located(src, Kind::Eof, src.len() as int))),
        Err(e) => Err(e),
    }
}

/// The tokens of a whole source text, the last of which is `Eof`.
pub open spec fn spec_tokenize(src: Seq<char>) -> Result<Seq<TokenView>, LexError> {
    spec_lex(src, 0)
}

/// A run of digits ends within the source, and its number is no smaller
/// than the number it continues.
pub proof fn lemma_digit_run_bounds(src: Seq<char>, j: int, acc: nat)
    requires
        0 <= j <= src.len(),
    ensures
        j <= digit_run(src, j, acc).end <= src.len(),
        digit_run(src, j, acc).value >= acc,
    decreases src.len() - j,
{
    if j < src.len() && is_digit(src[j]) {
        lemma_digit_run_bounds(src, j + 1, acc * 10 + digit_value(src[j]));
    }
}

/// An identifier ends within the source.
pub proof fn lemma_identifier_end_bounds(src: Seq<char>, j: int)
    requires
        0 <= j <= src.len(),
    ensures
        j <= identifier_end(src, j) <= src.len(),
    decreases src.len() - j,
{
    if j < src.len() && !is_delimiter(src[j]) {
        lemma_identifier_end_bounds(src, j + 1);
    }
}

/// A comment ends within the source.
pub proof fn lemma_comment_end_bounds(src: Seq<char>, j: int)
    requires
        0 <= j <= src.len(),
    ensures
        j <= comment_end(src, j) <= src.len(),
    decreases src.len() - j,
{
    if j < src.len() && src[j] != '\n' {
        lemma_comment_end_bounds(src, j + 1);
    }
}

/// A string literal ends within the source, and so does an escape that is
/// not known.
pub proof fn lemma_string_body_bounds(src: Seq<char>, j: int, text: Seq<char>)
    requires
        0 <= j <= src.len(),
    ensures
        match string_body(src, j, text) {
            StringScan::Closed { next, .. } => j < next <= src.len(),
            StringScan::Unterminated => true,
            StringScan::BadEscape { at } => j < at < src.len(),
        },
    decreases src.len() - j,
{
    if j < src.len() && src[j] != '"' {
        if src[j] == '\\' {
            if j + 1 < src.len() {
                match escape_value(src[j + 1]) {
                    Some(e) => lemma_string_body_bounds(src, j + 2, text.push(e)),
                    None => {},
                }
            }
        } else {
            lemma_string_body_bounds(src, j + 1, text.push(src[j]));
        }
    }
}

/// Every token and every skip consumes at least one character and ends
/// within the source; every error is about a character of the source.
pub proof fn lemma_scan_advances(src: Seq<char>, i: int)
    requires
        0 <= i < src.len(),
    ensures
        match scan(src, i) {
            Scan::Token { next, .. } => i < next <= src.len(),
            Scan::Skip { next } => i < next <= src.len(),
            Scan::Error { at, .. } => i <= at < src.len(),
        },
{
    let c = src[i];
    let c1 = char_at(src, i + 1);
    if c == ';' {
        lemma_comment_end_bounds(src, i + 1);
    } else if c == '"' {
        lemma_string_body_bounds(src, i + 1, Seq::empty());
    } else if is_digit(c) || ((c == '+' || c == '-') && is_digit(c1)) {
        let first = if c == '+' || c == '-' {
            i + 1
        } else {
            i
        };
        lemma_digit_run_bounds(src, first, 0);
        let whole = digit_run(src, first, 0);
        assert(whole.end > i) by {
            lemma_digit_run_bounds(src, first + 1, digit_value(src[first]));
        }
        if whole.end < src.len() {
            lemma_digit_run_bounds(src, whole.end + 1, whole.value);
        }
    } else if is_identifier_start(c) {
        lemma_identifier_end_bounds(src, i + 1);
    }
}

fn is_digit_char(c: char) -> (b: bool)
    ensures
        b == is_digit(c),
{
    let u: u32 = c as u32;
    48 <= u && u <= 57
}

fn is_delimiter_char(c: char) -> (b: bool)
    ensures
        b == is_delimiter(c),
{
    c == ' ' || c == '\t' || c == '\n' || c == '(' || c == ')' || c == '"' || c == ';'
}

fn is_identifier_start_char(c: char) -> (b: bool)
    ensures
        b == is_identifier_start(c),
{
    let u: u32 = c as u32;
    (97 <= u && u <= 122) || (65 <= u && u <= 90) || c == '!' || c == '$' || c == '%' || c == '&'
        || c == ':' || c == '<' || c == '=' || c == '>' || c == '?' || c == '^' || c == '_' || c
        == '~' || c == '.'
}

fn escape_char(c: char) -> (r: Option<char>)
    ensures
        r == escape_value(c),
{
    if c == 'n' {
        Some('\n')
    } else if c == 't' {
        Some('\t')
    } else if c == '\\' {
        Some('\\')
    } else if c == '"' {
        Some('"')
    } else {
        None
    }
}

fn is_word(text: &String, word: &str) -> (b: bool)
    ensures
        b == (text@ == word@),
{
    let other = String::from_str(word);
    *text == other
}

/// The token of an identifier's text.
fn word_kind(text: String) -> (kind: TokenKind)
    ensures
        kind@ == classify_word(text@),
{
    if is_word(&text, "define") {
        TokenKind::Define
    } else if is_word(&text, "lambda") {
        TokenKind::Lambda
    } else if is_word(&text, "set!") {
        TokenKind::SetBang
    } else if is_word(&text, "begin") {
        TokenKind::Begin
    } else if is_word(&text, "cond") {
        TokenKind::Cond
    } else if is_word(&text, "and") {
        TokenKind::And
    } else if is_word(&text, "or") {
        TokenKind::Or
    } else if is_word(&text, "letrec") {
        TokenKind::LetRec
    } else if is_word(&text, "else") {
        TokenKind::Else
    } else if is_word(&text, "if") {
        TokenKind::If
    } else if is_word(&text, "=>") {
        TokenKind::Arrow
    } else if is_word(&text, "...") {
        TokenKind::Ellipsis
    } else if is_word(&text, ".") {
        TokenKind::Dot
    } else {
        TokenKind::Identifier(text)
    }
}

impl Lexer {
    /// The characters of the source text.
    pub closed spec fn source(&self) -> Seq<char> {
        self.source@
    }

    /// The cursor: the number of times a character was asked for and
    /// consumed. It runs past the end of the source when `bite` is called
    /// there.
    pub closed spec fn cursor(&self) -> int {
        self.index as int
    }

    /// The line counter.
    pub closed spec fn line(&self) -> usize {
        self.line
    }

    /// The column counter.
    pub closed spec fn column(&self) -> usize {
        self.column
    }

    /// The position in the source that the cursor stands at: the cursor
    /// itself, or the end of the source where the cursor has run past it.
    pub open spec fn position(&self) -> int {
        if self.cursor() <= self.source().len() {
            self.cursor()
        } else {
            self.source().len() as int
        }
    }

    /// The cursor and the length of the source are machine integers, and
    /// the line and column counters are those of the cursor's position.
    pub open spec fn wf(&self) -> bool {
        &&& 0 <= self.cursor() <= usize::MAX
        &&& self.source().len() <= usize::MAX
        &&& self.line() == clamp(line_at(self.source(), self.position()))
        &&& self.column() == clamp(column_at(self.source(), self.position()))
    }

    /// A lexer at the start of `input`.
    pub fn new(input: &str) -> (lexer: Self)
        ensures
            lexer.wf(),
            lexer.source() == input@,
            lexer.cursor() == 0,
            lexer.line() == 1,
            lexer.column() == 1,
    {
        // The characters are kept in an indexable buffer, so that looking one
        // character ahead costs the same wherever the cursor stands.
        let source = chars_of(input);
        assert(source@.len() == source.len());
        Self { source, column: 1, line: 1, index: 0 }
    }

    /// Whether every character has been consumed.
    pub fn is_at_end(&self) -> (b: bool)
        requires
            self.wf(),
        ensures
            b == (self.cursor() >= self.source().len()),
    {
        self.index >= self.source.len()
    }

    /// The character after the one under the cursor, or `'\0'` where the
    /// source has none there.
    pub fn peek(&self) -> (c: char)
        requires
            self.wf(),
        ensures
            c == char_at(self.source(), self.cursor() + 1),
    {
        if self.index < self.source.len() && self.index + 1 < self.source.len() {
            self.source[self.index + 1]
        } else {
            '\0'
        }
    }

    /// Returns the character under the cursor, or `'\0'` where the cursor
    /// is at the end of the source or past it, and moves the cursor on by
    /// one. The line and column counters follow the characters consumed.
    pub fn bite(&mut self) -> (c: char)
        requires
            old(self).wf(),
            old(self).cursor() < usize::MAX,
        ensures
            final(self).wf(),
            final(self).source() == old(self).source(),
            c == char_at(old(self).source(), old(self).cursor()),
            final(self).cursor() == old(self).cursor() + 1,
    {
        let c = if self.index < self.source.len() {
            self.source[self.index]
        } else {
            '\0'
        };
        if self.index < self.source.len() {
            if c == '\n' {
                self.line = self.line.saturating_add(1);
                self.column = 1;
            } else {
                self.column = self.column.saturating_add(1);
            }
        }
        self.index = self.index + 1;
        c
    }

    /// Makes the token of kind `kind` that starts under the cursor, and
    /// moves the cursor on by one.
    pub fn make_token(&mut self, kind: TokenKind) -> (r: Option<Token>)
        requires
            old(self).wf(),
            old(self).cursor() < usize::MAX,
        ensures
            final(self).wf(),
            final(self).source() == old(self).source(),
            final(self).cursor() == old(self).cursor() + 1,
            r == Some(Token { kind, line: old(self).line(), column: old(self).column() }),
    {
        let token: Token = Token { column: self.column, line: self.line, kind };
        self.bite();
        Some(token)
    }

    /// A token of kind `kind` that starts at the given place.
    fn token_at(kind: TokenKind, line: usize, column: usize) -> (token: Token)
        ensures
            token@ == (TokenView { kind: kind@, line, column }),
    {
        Token { kind, line, column }
    }

    /// The error of kind `kind` about the character under the cursor.
    fn error_here(&self, kind: LexErrorKind) -> (e: LexError)
        requires
            self.wf(),
            self.cursor() <= self.source().len(),
        ensures
            e == error_at(self.source(), kind, self.cursor()),
    {
        let ch = if self.index < self.source.len() {
            self.source[self.index]
        } else {
            '\0'
        };
        LexError { kind, ch, line: self.line, column: self.column }
    }

    /// Consumes a comment up to the end of its line.
    fn skip_comment(&mut self)
        requires
            old(self).wf(),
        ensures
            final(self).wf(),
            final(self).source() == old(self).source(),
            final(self).cursor() == comment_end(old(self).source(), old(self).cursor()),
    {
        while self.index < self.source.len() && self.source[self.index] != '\n'
            invariant
                self.wf(),
                self.source@ == old(self).source@,
                comment_end(self.source@, self.index as int) == comment_end(
                    old(self).source@,
                    old(self).index as int,
                ),
            decreases self.source.len() - self.index,
        {
            self.bite();
        }
    }

    /// Consumes a run of digits that continues the number `acc`. Gives the
    /// number read, or `None` where it exceeds a `u64`.
    fn scan_digits(&mut self, acc: u64) -> (r: Option<u64>)
        requires
            old(self).wf(),
        ensures
            final(self).wf(),
            final(self).source() == old(self).source(),
            match r {
                Some(value) => {
                    &&& value == digit_run(old(self).source(), old(self).cursor(), acc as nat).value
                    &&& final(self).cursor() == digit_run(
                        old(self).source(),
                        old(self).cursor(),
                        acc as nat,
                    ).end
                },
                None => digit_run(old(self).source(), old(self).cursor(), acc as nat).value
                    > u64::MAX,
            },
    {
        let mut value: u64 = acc;
        while self.index < self.source.len() && is_digit_char(self.source[self.index])
            invariant
                self.wf(),
                self.source@ == old(self).source@,
                digit_run(self.source@, self.index as int, value as nat) == digit_run(
                    old(self).source@,
                    old(self).index as int,
                    acc as nat,
                ),
            decreases self.source.len() - self.index,
        {
            let d: u64 = (self.source[self.index] as u64) - 48;
            if value > (u64::MAX - d) / 10 {
                proof {
                    lemma_digit_run_bounds(
                        self.source@,
                        self.index as int + 1,
                        (value * 10 + d) as nat,
                    );
                }
                return None;
            }
            value = value * 10 + d;
            self.bite();
        }
        Some(value)
    }

    /// Scans the numeric literal under the cursor.
    fn scan_number_token(&mut self) -> (r: Result<Token, LexError>)
        requires
            old(self).wf(),
            old(self).cursor() < old(self).source().len(),
        ensures
            final(self).wf(),
            final(self).source() == old(self).source(),
            match scan_number(old(self).source(), old(self).cursor()) {
                Scan::Token { kind, next } => r matches Ok(token) && token@ == located(
                    old(self).source(),
                    kind,
                    old(self).cursor(),
                ) && final(self).cursor() == next,
                Scan::Skip { .. } => false,
                Scan::Error { reason, at } => r == Err::<Token, LexError>(
                    error_at(old(self).source(), reason, at),
                ),
            },
    {
        let line = self.line;
        let column = self.column;
        let first = self.source[self.index];
        let error = self.error_here(LexErrorKind::NumberOutOfRange);
        let negative = first == '-';
        if first == '+' || first == '-' {
            self.bite();
        }
        let ghost digits_start = self.index as int;
        let whole: u64 = match self.scan_digits(0) {
            Some(value) => value,
            None => {
                proof {
                    let run = digit_run(self.source@, digits_start, 0);
                    lemma_digit_run_bounds(self.source@, digits_start, 0);
                    if run.end < self.source@.len() {
                        lemma_digit_run_bounds(self.source@, run.end + 1, run.value);
                    }
                }
                return Err(error);
            },
        };
        if self.index < self.source.len() && self.source[self.index] == '.' {
            self.bite();
            let fraction_start = self.index;
            let digits: u64 = match self.scan_digits(whole) {
                Some(value) => value,
                None => {
                    return Err(error);
                },
            };
            proof {
                lemma_digit_run_bounds(self.source@, fraction_start as int, whole as nat);
            }
            let scale: usize = self.index - fraction_start;
            if scale > u32::MAX as usize {
                return Err(error);
            }
            Ok(
                Self::token_at(
                    TokenKind::Float(Decimal { negative, digits, scale: scale as u32 }),
                    line,
                    column,
                ),
            )
        } else if negative {
            if whole > 0x8000_0000_0000_0000 {
                Err(error)
            } else if whole == 0x8000_0000_0000_0000 {
                Ok(Self::token_at(TokenKind::Number(i64::MIN), line, column))
            } else {
                Ok(Self::token_at(TokenKind::Number(-(whole as i64)), line, column))
            }
        } else {
            if whole > 0x7fff_ffff_ffff_ffff {
                Err(error)
            } else {
                Ok(Self::token_at(TokenKind::Number(whole as i64), line, column))
            }
        }
    }

    /// Scans the string literal whose opening quote is under the cursor.
    #[verifier::loop_isolation(false)]
    fn scan_string_token(&mut self) -> (r: Result<Token, LexError>)
        requires
            old(self).wf(),
            old(self).cursor() < old(self).source().len(),
        ensures
            final(self).wf(),
            final(self).source() == old(self).source(),
            match scan_string(old(self).source(), old(self).cursor()) {
                Scan::Token { kind, next } => r matches Ok(token) && token@ == located(
                    old(self).source(),
                    kind,
                    old(self).cursor(),
                ) && final(self).cursor() == next,
                Scan::Skip { .. } => false,
                Scan::Error { reason, at } => r == Err::<Token, LexError>(
                    error_at(old(self).source(), reason, at),
                ),
            },
    {
        let line = self.line;
        let column = self.column;
        let unterminated = self.error_here(LexErrorKind::UnterminatedString);
        self.bite();
        let mut text = String::new();
        loop
            invariant
                self.wf(),
                self.source@ == old(self).source@,
                string_body(self.source@, self.index as int, text@) == string_body(
                    old(self).source@,
                    old(self).index as int + 1,
                    Seq::empty(),
                ),
            decreases self.source.len() - self.index,
        {
            if self.index >= self.source.len() {
                return Err(unterminated);
            }
            let c = self.bite();
            if c == '"' {
                return Ok(Self::token_at(TokenKind::String(text), line, column));
            } else if c == '\\' {
                if self.index >= self.source.len() {
                    return Err(unterminated);
                }
                match escape_char(self.source[self.index]) {
                    Some(e) => {
                        self.bite();
                        text.push(e);
                    },
                    None => {
                        return Err(self.error_here(LexErrorKind::UnexpectedChar));
                    },
                }
            } else {
                text.push(c);
            }
        }
    }

    /// Scans the identifier or keyword under the cursor.
    fn scan_word_token(&mut self) -> (token: Token)
        requires
            old(self).wf(),
            old(self).cursor() < old(self).source().len(),
        ensures
            final(self).wf(),
            final(self).source() == old(self).source(),
            scan_word(old(self).source(), old(self).cursor()) matches Scan::Token { kind, next }
                && token@ == located(old(self).source(), kind, old(self).cursor())
                && final(self).cursor() == next,
    {
        let line = self.line;
        let column = self.column;
        let mut text = String::new();
        while self.index < self.source.len() && !is_delimiter_char(self.source[self.index])
            invariant
                self.wf(),
                self.source@ == old(self).source@,
                old(self).index <= self.index,
                text@ == self.source@.subrange(old(self).index as int, self.index as int),
                identifier_end(self.source@, self.index as int) == identifier_end(
                    old(self).source@,
                    old(self).index as int,
                ),
            decreases self.source.len() - self.index,
        {
            let c = self.bite();
            text.push(c);
            assert(text@ == self.source@.subrange(old(self).index as int, self.index as int));
        }
        Self::token_at(word_kind(text), line, column)
    }

    /// Scans what `#` under the cursor introduces.
    fn scan_hash_token(&mut self) -> (r: Result<Token, LexError>)
        requires
            old(self).wf(),
            old(self).cursor() < old(self).source().len(),
        ensures
            final(self).wf(),
            final(self).source() == old(self).source(),
            match scan_hash(old(self).source(), old(self).cursor()) {
                Scan::Token { kind, next } => r matches Ok(token) && token@ == located(
                    old(self).source(),
                    kind,
                    old(self).cursor(),
                ) && final(self).cursor() == next,
                Scan::Skip { .. } => false,
                Scan::Error { reason, at } => r == Err::<Token, LexError>(
                    error_at(old(self).source(), reason, at),
                ),
            },
    {
        let line = self.line;
        let column = self.column;
        let c1 = self.peek();
        if c1 == 't' {
            self.bite();
            self.bite();
            Ok(Self::token_at(TokenKind::True, line, column))
        } else if c1 == 'f' {
            self.bite();
            self.bite();
            Ok(Self::token_at(TokenKind::False, line, column))
        } else if c1 == '(' {
            self.bite();
            self.bite();
            Ok(Self::token_at(TokenKind::HashLParen, line, column))
        } else if c1 == '\\' {
            let unterminated = self.error_here(LexErrorKind::UnterminatedChar);
            self.bite();
            self.bite();
            if self.index < self.source.len() {
                let c = self.bite();
                Ok(Self::token_at(TokenKind::Char(c), line, column))
            } else {
                Err(unterminated)
            }
        } else {
            Err(self.error_here(LexErrorKind::UnexpectedChar))
        }
    }

    /// Scans what stands under the cursor: a token, or whitespace or a
    /// comment, for which it gives `None`. At the end of the source it gives
    /// the `Eof` token and leaves the cursor where it is.
    pub fn scan_token(&mut self) -> (r: Result<Option<Token>, LexError>)
        requires
            old(self).wf(),
        ensures
            final(self).wf(),
            final(self).source() == old(self).source(),
            match scan(old(self).source(), old(self).cursor()) {
                Scan::Token { kind, next } => r matches Ok(Some(token)) && token@ == located(
                    old(self).source(),
                    kind,
                    old(self).position(),
                ) && final(self).cursor() == next,
                Scan::Skip { next } => r matches Ok(None) && final(self).cursor() == next,
                Scan::Error { reason, at } => r == Err::<Option<Token>, LexError>(
                    error_at(old(self).source(), reason, at),
                ),
            },
    {
        if self.index >= self.source.len() {
            return Ok(Some(Self::token_at(TokenKind::Eof, self.line, self.column)));
        }
        let c = self.source[self.index];
        if c == '(' {
            Ok(self.make_token(TokenKind::LParen))
        } else if c == ')' {
            Ok(self.make_token(TokenKind::RParen))
        } else if c == '\'' {
            Ok(self.make_token(TokenKind::Quote))
        } else if c == '`' {
            Ok(self.make_token(TokenKind::QuasiQuote))
        } else if c == ',' {
            if self.peek() == '@' {
                let line = self.line;
                let column = self.column;
                self.bite();
                self.bite();
                Ok(Some(Self::token_at(TokenKind::CommaAt, line, column)))
            } else {
                Ok(self.make_token(TokenKind::Comma))
            }
        } else if c == ' ' || c == '\t' || c == '\n' {
            self.bite();
            Ok(None)
        } else if c == ';' {
            self.bite();
            self.skip_comment();
            Ok(None)
        } else if c == '#' {
            match self.scan_hash_token() {
                Ok(token) => Ok(Some(token)),
                Err(e) => Err(e),
            }
        } else if c == '"' {
            match self.scan_string_token() {
                Ok(token) => Ok(Some(token)),
                Err(e) => Err(e),
            }
        } else if is_digit_char(c) || ((c == '+' || c == '-') && is_digit_char(self.peek())) {
            match self.scan_number_token() {
                Ok(token) => Ok(Some(token)),
                Err(e) => Err(e),
            }
        } else if c == '+' {
            Ok(self.make_token(TokenKind::Plus))
        } else if c == '-' {
            Ok(self.make_token(TokenKind::Minus))
        } else if c == '*' {
            Ok(self.make_token(TokenKind::Star))
        } else if c == '/' {
            Ok(self.make_token(TokenKind::Slash))
        } else if is_identifier_start_char(c) {
            Ok(Some(self.scan_word_token()))
        } else {
            Err(self.error_here(LexErrorKind::UnexpectedChar))
        }
    }

    /// Scans the rest of the source into tokens, the last of which is `Eof`.
    /// On success the cursor is at the end of the source, or where it was
    /// if it had run past the end.
    pub fn lex(&mut self) -> (r: Result<Vec<Token>, LexError>)
        requires
            old(self).wf(),
        ensures
            final(self).wf(),
            final(self).source() == old(self).source(),
            match spec_lex(old(self).source(), old(self).cursor()) {
                Ok(tokens) => {
                    &&& r matches Ok(v) && tokens_view(v@) == tokens
                    &&& final(self).cursor() == (if old(self).cursor() <= old(self).source().len() {
                        old(self).source().len() as int
                    } else {
                        old(self).cursor()
                    })
                },
                Err(e) => r == Err::<Vec<Token>, LexError>(e),
            },
            r matches Ok(v) ==> ends_in_one_eof(tokens_view(v@)),
    {
        let mut v: Vec<Token> = Vec::new();
        assert(tokens_view(v@) =~= Seq::empty());
        while !self.is_at_end()
            invariant
                self.wf(),
                self.source@ == old(self).source@,
                self.index <= self.source.len() || self.index == old(self).index,
                old(self).index <= self.index,
                lex_from(self.source@, self.index as int, tokens_view(v@)) == lex_from(
                    old(self).source@,
                    old(self).index as int,
                    Seq::empty(),
                ),
            decreases self.source.len() - self.index,
        {
            proof {
                lemma_scan_advances(self.source@, self.index as int);
            }
            let ghost before = tokens_view(v@);
            match self.scan_token() {
                Ok(Some(token)) => {
                    v.push(token);
                    assert(tokens_view(v@) =~= before.push(token@));
                },
                Ok(None) => {},
                Err(e) => {
                    return Err(e);
                },
            }
        }
        // At the end of the source `scan_token` gives the `Eof` token.
        let ghost before = tokens_view(v@);
        if let Ok(Some(eof)) = self.scan_token() {
            v.push(eof);
            assert(tokens_view(v@) =~= before.push(eof@));
        }
        proof {
            lemma_lex_gives_no_eof(old(self).source(), old(self).cursor(), Seq::empty());
        }
        Ok(v)
    }
}

/// Tokenizes a whole source text: its tokens in order, then one `Eof`.
/// Malformed text gives the first lexical error and never a fault.
pub fn tokenize(source: &str) -> (r: Result<Vec<Token>, LexError>)
    ensures
        match spec_tokenize(source@) {
            Ok(tokens) => r matches Ok(v) && tokens_view(v@) == tokens,
            Err(e) => r == Err::<Vec<Token>, LexError>(e),
        },
        r matches Ok(v) ==> ends_in_one_eof(tokens_view(v@)),
{
    let mut lexer = Lexer::new(source);
    lexer.lex()
}

/// The last token is `Eof` and no other token is.
pub open spec fn ends_in_one_eof(tokens: Seq<TokenView>) -> bool {
    &&& tokens.len() >= 1
    &&& tokens.last().kind == Kind::Eof
    &&& forall|i: int| 0 <= i < tokens.len() - 1 ==> (#[trigger] tokens[i]).kind != Kind::Eof
}

/// No token that `scan` finds is `Eof`.
pub proof fn lemma_scan_gives_no_eof(src: Seq<char>, i: int)
    requires
        0 <= i < src.len(),
    ensures
        scan(src, i) matches Scan::Token { kind, .. } ==> kind != Kind::Eof,
{
}

/// Lexing adds no `Eof` to the tokens it continues.
pub proof fn lemma_lex_gives_no_eof(src: Seq<char>, i: int, done: Seq<TokenView>)
    requires
        forall|k: int| 0 <= k < done.len() ==> (#[trigger] done[k]).kind != Kind::Eof,
    ensures
        lex_from(src, i, done) matches Ok(tokens) ==> forall|k: int|
            0 <= k < tokens.len() ==> (#[trigger] tokens[k]).kind != Kind::Eof,
    decreases src.len() - i,
{
    if 0 <= i < src.len() {
        lemma_scan_advances(src, i);
        lemma_scan_gives_no_eof(src, i);
        match scan(src, i) {
            Scan::Token { kind, next } => {
                lemma_lex_gives_no_eof(src, next, done.push(located(src, kind, i)));
            },
            Scan::Skip { next } => {
                lemma_lex_gives_no_eof(src, next, done);
            },
            Scan::Error { .. } => {},
        }
    }
}

/// Lexing is total: from every position of every text it gives either
/// tokens that end in exactly one `Eof`, or a lexical error.
pub proof fn lemma_lex_ends_in_one_eof(src: Seq<char>, i: int)
    ensures
        spec_lex(src, i) matches Ok(tokens) ==> ends_in_one_eof(tokens),
{
    lemma_lex_gives_no_eof(src, i, Seq::empty());
}

/// Tokenizing is total: every text gives either tokens that end in exactly
/// one `Eof`, or a lexical error.
pub proof fn lemma_tokenize_ends_in_one_eof(src: Seq<char>)
    ensures
        spec_tokenize(src) matches Ok(tokens) ==> ends_in_one_eof(tokens),
{
    lemma_lex_ends_in_one_eof(src, 0);
}

} // verus!
