//! The lexical grammar as a mathematical model.
//!
//! What one scanning step consumes from a given position, what it yields,
//! and what a whole pass over a source yields. The scanner's contracts are
//! stated against these functions.

use vstd::prelude::*;

use crate::scanner::ScanError;
use crate::token::{reserved_keyword, LiteralView, TokenType, TokenView};

verus! {

/// The byte at `pos`, if `pos` lies inside `src`.
pub open spec fn byte_at(src: Seq<u8>, pos: int) -> Option<u8> {
    if 0 <= pos < src.len() {
        Some(src[pos])
    } else {
        None
    }
}

/// ASCII digits.
pub open spec fn is_digit(b: u8) -> bool {
    '0' as u8 <= b <= '9' as u8
}

/// ASCII letters and `_`: the bytes that may start a word.
pub open spec fn is_alpha(b: u8) -> bool {
    ||| 'a' as u8 <= b <= 'z' as u8
    ||| 'A' as u8 <= b <= 'Z' as u8
    ||| b == '_' as u8
}

/// ASCII letters, digits and `_`: the bytes that a word is made of.
pub open spec fn is_alphanumeric(b: u8) -> bool {
    is_alpha(b) || is_digit(b)
}

/// Bytes that separate tokens and yield nothing themselves.
pub open spec fn is_whitespace(b: u8) -> bool {
    ||| b == ' ' as u8
    ||| b == '\r' as u8
    ||| b == '\t' as u8
    ||| b == '\n' as u8
}

/// The kind of a token that is always one byte long.
pub open spec fn punctuation(b: u8) -> Option<TokenType> {
    if b == '(' as u8 {
        Some(TokenType::LeftParen)
    } else if b == ')' as u8 {
        Some(TokenType::RightParen)
    } else if b == '{' as u8 {
        Some(TokenType::LeftBrace)
    } else if b == '}' as u8 {
        Some(TokenType::RightBrace)
    } else if b == ',' as u8 {
        Some(TokenType::Comma)
    } else if b == '.' as u8 {
        Some(TokenType::Dot)
    } else if b == '-' as u8 {
        Some(TokenType::Minus)
    } else if b == '+' as u8 {
        Some(TokenType::Plus)
    } else if b == ';' as u8 {
        Some(TokenType::Semicolon)
    } else if b == '*' as u8 {
        Some(TokenType::Star)
    } else {
        None
    }
}

/// The kind of an operator that may be followed by `=`: the two-byte kind
/// when `with_equal`, the bare kind otherwise.
pub open spec fn operator(b: u8, with_equal: bool) -> Option<TokenType> {
    if b == '!' as u8 {
        Some(if with_equal { TokenType::BangEqual } else { TokenType::Bang })
    } else if b == '=' as u8 {
        Some(if with_equal { TokenType::EqualEqual } else { TokenType::Equal })
    } else if b == '>' as u8 {
        Some(if with_equal { TokenType::GreaterEqual } else { TokenType::Greater })
    } else if b == '<' as u8 {
        Some(if with_equal { TokenType::LessEqual } else { TokenType::Less })
    } else {
        None
    }
}

/// Whether `b` starts no token and is no whitespace.
pub open spec fn is_unexpected(b: u8) -> bool {
    &&& punctuation(b) is None
    &&& operator(b, false) is None
    &&& b != '/' as u8
    &&& !is_whitespace(b)
    &&& b != '"' as u8
    &&& !is_digit(b)
    &&& !is_alpha(b)
}

/// The classes of bytes of which the grammar consumes whole runs.
#[derive(Debug, Clone, Copy, PartialEq, Eq, Structural)]
pub enum ByteClass {
    /// ASCII digits.
    Digit,
    /// ASCII letters, digits and `_`.
    Word,
    /// Everything but a line feed.
    InLine,
    /// Everything but a double quote.
    InString,
}

impl ByteClass {
    /// Whether `b` belongs to the class.
    pub open spec fn holds(self, b: u8) -> bool {
        match self {
            ByteClass::Digit => is_digit(b),
            ByteClass::Word => is_alphanumeric(b),
            ByteClass::InLine => b != '\n' as u8,
            ByteClass::InString => b != '"' as u8,
        }
    }

    /// Tells whether `b` belongs to the class.
    pub fn contains(self, b: u8) -> (found: bool)
        ensures
            found == self.holds(b),
    {
        match self {
            ByteClass::Digit => b >= '0' as u8 && b <= '9' as u8,
            ByteClass::Word => {
                (b >= 'a' as u8 && b <= 'z' as u8) || (b >= 'A' as u8 && b <= 'Z' as u8) || b
                    == '_' as u8 || (b >= '0' as u8 && b <= '9' as u8)
            },
            ByteClass::InLine => b != '\n' as u8,
            ByteClass::InString => b != '"' as u8,
        }
    }
}

/// Where the longest run of bytes of `class` that starts at `pos` ends: the
/// first position at or after `pos` that holds no byte of the class.
pub open spec fn run_end(src: Seq<u8>, pos: int, class: ByteClass) -> int
    decreases src.len() - pos,
{
    if 0 <= pos < src.len() && class.holds(src[pos]) {
        run_end(src, pos + 1, class)
    } else {
        pos
    }
}

/// Where a number that starts at `pos` ends: after its digits, and after a
/// fraction if a dot and at least one more digit follow them.
pub open spec fn number_end(src: Seq<u8>, pos: int) -> int {
    let whole = run_end(src, pos, ByteClass::Digit);
    if byte_at(src, whole) == Some('.' as u8) && byte_at(src, whole + 1) is Some && is_digit(
        src[whole + 1],
    ) {
        run_end(src, whole + 2, ByteClass::Digit)
    } else {
        whole
    }
}

/// Whether a comment opens at `pos`.
pub open spec fn opens_comment(src: Seq<u8>, pos: int) -> bool {
    byte_at(src, pos) == Some('/' as u8) && byte_at(src, pos + 1) == Some('*' as u8)
}

/// Whether a comment closes at `pos`.
pub open spec fn closes_comment(src: Seq<u8>, pos: int) -> bool {
    byte_at(src, pos) == Some('*' as u8) && byte_at(src, pos + 1) == Some('/' as u8)
}

/// Where a comment ends, seen from `pos` inside it with `depth` comments
/// still open: just past the delimiter that closes the outermost one, or
/// `None` if the source ends first. Delimiters are taken as they come, left
/// to right, each as a unit of two bytes.
pub open spec fn comment_end(src: Seq<u8>, pos: int, depth: nat) -> Option<int>
    decreases src.len() - pos,
{
    if depth == 0 {
        Some(pos)
    } else if pos < 0 || pos >= src.len() {
        None
    } else if opens_comment(src, pos) {
        comment_end(src, pos + 2, depth + 1)
    } else if closes_comment(src, pos) {
        comment_end(src, pos + 2, (depth - 1) as nat)
    } else {
        comment_end(src, pos + 1, depth)
    }
}

/// What one scanning step yields.
pub enum Outcome {
    /// A token of this kind.
    Token(TokenType),
    /// Nothing: whitespace was skipped.
    Skip,
    /// An error, and no token.
    Error(ScanError),
}

/// One scanning step: what it yields and where the next one starts.
pub struct Step {
    pub outcome: Outcome,
    pub end: int,
}

/// The step taken at a `/`: a comment of either form, or the bare operator.
pub open spec fn slash_step(src: Seq<u8>, pos: int) -> Step {
    if byte_at(src, pos + 1) == Some('/' as u8) {
        Step {
            outcome: Outcome::Token(TokenType::SingleLineComment),
            end: run_end(src, pos + 2, ByteClass::InLine),
        }
    } else if byte_at(src, pos + 1) == Some('*' as u8) {
        match comment_end(src, pos + 2, 1) {
            Some(end) => Step { outcome: Outcome::Token(TokenType::MultiLineComment), end },
            None => Step {
                outcome: Outcome::Error(ScanError::UnterminatedMultiLineComment),
                end: src.len() as int,
            },
        }
    } else {
        Step { outcome: Outcome::Token(TokenType::Slash), end: pos + 1 }
    }
}

/// The step taken at a double quote: the string up to and including the next
/// double quote, or an error that takes the rest of the source.
pub open spec fn string_step(src: Seq<u8>, pos: int) -> Step {
    let close = run_end(src, pos + 1, ByteClass::InString);
    if close < src.len() {
        Step { outcome: Outcome::Token(TokenType::String), end: close + 1 }
    } else {
        Step { outcome: Outcome::Error(ScanError::UnterminatedString), end: src.len() as int }
    }
}

/// The step taken at a letter or `_`: the longest word, as a keyword if it
/// spells one and as an identifier otherwise.
pub open spec fn word_step(src: Seq<u8>, pos: int) -> Step {
    let end = run_end(src, pos, ByteClass::Word);
    let kind = match reserved_keyword(src.subrange(pos, end)) {
        Some(kind) => kind,
        None => TokenType::Identifier,
    };
    Step { outcome: Outcome::Token(kind), end }
}

/// The scanning step taken at `pos`, decided by the byte found there.
pub open spec fn step(src: Seq<u8>, pos: int) -> Step
    recommends
        0 <= pos < src.len(),
{
    let b = src[pos];
    let with_equal = byte_at(src, pos + 1) == Some('=' as u8);
    if punctuation(b) is Some {
        Step { outcome: Outcome::Token(punctuation(b)->0), end: pos + 1 }
    } else if operator(b, with_equal) is Some {
        Step {
            outcome: Outcome::Token(operator(b, with_equal)->0),
            end: if with_equal { pos + 2 } else { pos + 1 },
        }
    } else if b == '/' as u8 {
        slash_step(src, pos)
    } else if is_whitespace(b) {
        Step { outcome: Outcome::Skip, end: pos + 1 }
    } else if b == '"' as u8 {
        string_step(src, pos)
    } else if is_digit(b) {
        Step { outcome: Outcome::Token(TokenType::Number), end: number_end(src, pos) }
    } else if is_alpha(b) {
        word_step(src, pos)
    } else {
        Step { outcome: Outcome::Error(ScanError::UnexpectedCharacter(b)), end: pos + 1 }
    }
}

/// The number of line feeds among the first `pos` bytes of `src`.
pub open spec fn newlines_before(src: Seq<u8>, pos: int) -> nat
    decreases pos,
{
    if pos <= 0 || pos > src.len() {
        0
    } else {
        newlines_before(src, pos - 1) + if src[pos - 1] == '\n' as u8 {
            1nat
        } else {
            0nat
        }
    }
}

/// The 1-based line on which the byte at `pos` stands.
pub open spec fn line_at(src: Seq<u8>, pos: int) -> nat {
    1 + newlines_before(src, pos)
}

/// A token's place in the source: its kind and the bytes `start..end`.
pub struct Span {
    pub kind: TokenType,
    pub start: int,
    pub end: int,
}

/// The literal that a token at `span` carries: the text between the quotes
/// of a string, the digits of a number, the text after `//` or between the
/// outermost `/*` and `*/` of a comment, and nothing for any other kind.
pub open spec fn literal_at(src: Seq<u8>, span: Span) -> Option<LiteralView> {
    match span.kind {
        TokenType::String => Some(
            LiteralView::String(src.subrange(span.start + 1, span.end - 1)),
        ),
        TokenType::Number => Some(LiteralView::Number(src.subrange(span.start, span.end))),
        TokenType::SingleLineComment => Some(
            LiteralView::String(src.subrange(span.start + 2, span.end)),
        ),
        TokenType::MultiLineComment => Some(
            LiteralView::String(src.subrange(span.start + 2, span.end - 2)),
        ),
        _ => None,
    }
}

/// The token found at `span`: its lexeme is the span's bytes, its line the
/// line of its first byte.
pub open spec fn token_at(src: Seq<u8>, span: Span) -> TokenView {
    TokenView {
        token_type: span.kind,
        lexeme: src.subrange(span.start, span.end),
        literal: literal_at(src, span),
        line: line_at(src, span.start),
    }
}

/// What a scan yields: the tokens' spans and the errors, each in the order
/// in which they were met.
pub struct Lexed {
    pub spans: Seq<Span>,
    pub errors: Seq<ScanError>,
}

/// The end of input: an empty span behind the last byte.
pub open spec fn eof_span(src: Seq<u8>) -> Span {
    Span { kind: TokenType::Eof, start: src.len() as int, end: src.len() as int }
}

/// The scan of `src` from `pos` on: step by step to the end of the source,
/// and then the end-of-input token.
pub open spec fn lex_from(src: Seq<u8>, pos: int) -> Lexed
    decreases src.len() - pos,
    via lex_from_decreases
{
    if pos < 0 || pos >= src.len() {
        Lexed { spans: seq![eof_span(src)], errors: seq![] }
    } else {
        let taken = step(src, pos);
        let rest = lex_from(src, taken.end);
        match taken.outcome {
            Outcome::Token(kind) => Lexed {
                spans: seq![Span { kind, start: pos, end: taken.end }] + rest.spans,
                errors: rest.errors,
            },
            Outcome::Skip => rest,
            Outcome::Error(error) => Lexed {
                spans: rest.spans,
                errors: seq![error] + rest.errors,
            },
        }
    }
}

#[via_fn]
proof fn lex_from_decreases(src: Seq<u8>, pos: int) {
    if 0 <= pos < src.len() {
        lemma_step_advances(src, pos);
    }
}

/// The scan of a whole source.
pub open spec fn lex(src: Seq<u8>) -> Lexed {
    lex_from(src, 0)
}

/// The tokens that a scan of `src` yields.
pub open spec fn tokens_of(src: Seq<u8>, lexed: Lexed) -> Seq<TokenView> {
    Seq::new(lexed.spans.len(), |i: int| token_at(src, lexed.spans[i]))
}

/// Whether `span` is the token that the step at its start yields.
pub open spec fn is_step(src: Seq<u8>, span: Span) -> bool {
    &&& 0 <= span.start < src.len()
    &&& step(src, span.start) == Step { outcome: Outcome::Token(span.kind), end: span.end }
}

/// A run ends inside the source, at or after the place where it starts.
pub proof fn lemma_run_end_bounds(src: Seq<u8>, pos: int, class: ByteClass)
    requires
        0 <= pos <= src.len(),
    ensures
        pos <= run_end(src, pos, class) <= src.len(),
    decreases src.len() - pos,
{
    if pos < src.len() && class.holds(src[pos]) {
        lemma_run_end_bounds(src, pos + 1, class);
    }
}

/// A comment that ends does so inside the source, behind the place from
/// which it is seen; with a comment still open, at least two bytes behind.
pub proof fn lemma_comment_end_bounds(src: Seq<u8>, pos: int, depth: nat)
    requires
        0 <= pos <= src.len(),
        comment_end(src, pos, depth) is Some,
    ensures
        pos <= comment_end(src, pos, depth)->0 <= src.len(),
        depth > 0 ==> pos + 2 <= comment_end(src, pos, depth)->0,
    decreases src.len() - pos,
{
    if depth == 0 {
    } else if pos >= src.len() {
    } else if opens_comment(src, pos) {
        lemma_comment_end_bounds(src, pos + 2, depth + 1);
    } else if closes_comment(src, pos) {
        lemma_comment_end_bounds(src, pos + 2, (depth - 1) as nat);
    } else {
        lemma_comment_end_bounds(src, pos + 1, depth);
    }
}

/// A number that starts with a digit consumes it and stays inside the source.
pub proof fn lemma_number_end_bounds(src: Seq<u8>, pos: int)
    requires
        0 <= pos < src.len(),
    ensures
        is_digit(src[pos]) ==> pos < number_end(src, pos),
        pos <= number_end(src, pos) <= src.len(),
{
    let whole = run_end(src, pos, ByteClass::Digit);
    lemma_run_end_bounds(src, pos, ByteClass::Digit);
    if is_digit(src[pos]) {
        lemma_run_end_bounds(src, pos + 1, ByteClass::Digit);
    }
    if whole + 2 <= src.len() {
        lemma_run_end_bounds(src, whole + 2, ByteClass::Digit);
    }
}

/// Every step consumes at least one byte and stays inside the source.
pub proof fn lemma_step_advances(src: Seq<u8>, pos: int)
    requires
        0 <= pos < src.len(),
    ensures
        pos < step(src, pos).end <= src.len(),
{
    lemma_run_end_bounds(src, pos + 1, ByteClass::InString);
    lemma_run_end_bounds(src, pos + 1, ByteClass::Word);
    if pos + 2 <= src.len() {
        lemma_run_end_bounds(src, pos + 2, ByteClass::InLine);
        if comment_end(src, pos + 2, 1) is Some {
            lemma_comment_end_bounds(src, pos + 2, 1);
        }
    }
    lemma_number_end_bounds(src, pos);
}

} // verus!
