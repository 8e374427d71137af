//! The token model: kinds, lexemes, literals, and the reserved words.

use vstd::prelude::*;
use vstd::string::{StringExecFns, StringSliceAdditionalSpecFns};
use vstd::utf8::{decode_utf8, encode_utf8_decode_utf8, valid_utf8};

verus! {

/// The closed set of token kinds.
#[derive(Debug, Clone, Copy, PartialEq, Eq, Structural)]
pub enum TokenType {
    LeftParen,
    RightParen,
    LeftBrace,
    RightBrace,
    Comma,
    Dot,
    Minus,
    Plus,
    Semicolon,
    Slash,
    Star,
    Bang,
    BangEqual,
    Equal,
    EqualEqual,
    Greater,
    GreaterEqual,
    Less,
    LessEqual,
    Identifier,
    String,
    Number,
    And,
    Class,
    Else,
    False,
    Fun,
    For,
    If,
    Nil,
    Or,
    Print,
    Return,
    Super,
    This,
    True,
    Var,
    While,
    Eof,
    SingleLineComment,
    MultiLineComment,
}

/// The value carried by string, number and comment tokens.
///
/// Both variants borrow from the source buffer. `Number` holds the digits as
/// they were written (`digit+ ('.' digit+)?`); turning them into a machine
/// number is left to the consumer. `String` holds the raw text between the
/// delimiters of a string or of a comment.
#[derive(Debug, Clone, Copy, PartialEq, Eq)]
pub enum Literal<'source> {
    Number(&'source [u8]),
    String(&'source [u8]),
}

/// The exact source bytes matched for one token.
#[derive(Debug, Clone, Copy, PartialEq, Eq)]
pub struct Lexeme<'source>(pub &'source [u8]);

/// A classified piece of source text.
#[derive(Debug, Clone, Copy, PartialEq, Eq)]
pub struct Token<'source> {
    pub token_type: TokenType,
    pub lexeme: Lexeme<'source>,
    pub literal: Option<Literal<'source>>,
    pub line: usize,
}

/// A literal as a mathematical value: the bytes it borrows.
pub enum LiteralView {
    Number(Seq<u8>),
    String(Seq<u8>),
}

/// A token as a mathematical value.
pub struct TokenView {
    pub token_type: TokenType,
    pub lexeme: Seq<u8>,
    pub literal: Option<LiteralView>,
    pub line: nat,
}

impl<'source> View for Lexeme<'source> {
    type V = Seq<u8>;

    open spec fn view(&self) -> Seq<u8> {
        self.0@
    }
}

impl<'source> View for Literal<'source> {
    type V = LiteralView;

    open spec fn view(&self) -> LiteralView {
        match *self {
            Literal::Number(digits) => LiteralView::Number(digits@),
            Literal::String(text) => LiteralView::String(text@),
        }
    }
}

impl<'source> View for Token<'source> {
    type V = TokenView;

    open spec fn view(&self) -> TokenView {
        TokenView {
            token_type: self.token_type,
            lexeme: self.lexeme@,
            literal: match self.literal {
                Some(literal) => Some(literal@),
                None => None,
            },
            line: self.line as nat,
        }
    }
}

/// Decodes `bytes` with `core::str::from_utf8`. This contract is assumed of
/// that function, not proved: it succeeds exactly on valid UTF-8, and the
/// string slice it then yields lies over the very bytes it was given.
#[verifier::external_body]
fn utf8_text<'a>(bytes: &'a [u8]) -> (text: Option<&'a str>)
    ensures
        text is Some <==> valid_utf8(bytes@),
        text is Some ==> text->0.spec_bytes() == bytes@,
{
    match core::str::from_utf8(bytes) {
        Ok(text) => Some(text),
        Err(_) => None,
    }
}

/// The text that `bytes` encode.
fn decoded(bytes: &[u8]) -> (text: &str)
    requires
        valid_utf8(bytes@),
    ensures
        text@ == decode_utf8(bytes@),
{
    match utf8_text(bytes) {
        Some(text) => {
            proof {
                encode_utf8_decode_utf8(text@);
            }
            text
        },
        None => vstd::pervasive::unreached(),
    }
}

impl<'source> Lexeme<'source> {
    /// The lexeme as text.
    pub fn to_text(&self) -> (text: String)
        requires
            valid_utf8(self@),
        ensures
            text@ == decode_utf8(self@),
    {
        decoded(self.0).to_owned()
    }
}

impl<'source> Literal<'source> {
    /// The bytes that the literal borrows from the source.
    pub open spec fn bytes(&self) -> Seq<u8> {
        match *self {
            Literal::Number(digits) => digits@,
            Literal::String(text) => text@,
        }
    }

    /// The literal as text: a number as it was written, a string between
    /// double quotes.
    pub fn to_text(&self) -> (text: String)
        requires
            valid_utf8(self.bytes()),
        ensures
            text@ == match *self {
                Literal::Number(digits) => decode_utf8(digits@),
                Literal::String(content) => seq!['"'] + decode_utf8(content@) + seq!['"'],
            },
    {
        match *self {
            Literal::Number(digits) => decoded(digits).to_owned(),
            Literal::String(content) => {
                proof {
                    reveal_strlit("\"");
                }
                let mut text = "\"".to_owned();
                text.append(decoded(content));
                text.append("\"");
                assert(text@ =~= seq!['"'] + decode_utf8(content@) + seq!['"']);
                text
            },
        }
    }
}

/// The views of a sequence of tokens, in the same order.
pub open spec fn token_views(tokens: Seq<Token<'_>>) -> Seq<TokenView> {
    Seq::new(tokens.len(), |i: int| tokens[i]@)
}

/// The reserved words: the kind that `text` spells, if it is one of the
/// sixteen keywords. The match is exact and case-sensitive.
pub open spec fn reserved_keyword(text: Seq<u8>) -> Option<TokenType> {
    if text == "and".spec_bytes() {
        Some(TokenType::And)
    } else if text == "class".spec_bytes() {
        Some(TokenType::Class)
    } else if text == "else".spec_bytes() {
        Some(TokenType::Else)
    } else if text == "false".spec_bytes() {
        Some(TokenType::False)
    } else if text == "for".spec_bytes() {
        Some(TokenType::For)
    } else if text == "fun".spec_bytes() {
        Some(TokenType::Fun)
    } else if text == "if".spec_bytes() {
        Some(TokenType::If)
    } else if text == "nil".spec_bytes() {
        Some(TokenType::Nil)
    } else if text == "or".spec_bytes() {
        Some(TokenType::Or)
    } else if text == "print".spec_bytes() {
        Some(TokenType::Print)
    } else if text == "return".spec_bytes() {
        Some(TokenType::Return)
    } else if text == "super".spec_bytes() {
        Some(TokenType::Super)
    } else if text == "this".spec_bytes() {
        Some(TokenType::This)
    } else if text == "true".spec_bytes() {
        Some(TokenType::True)
    } else if text == "var".spec_bytes() {
        Some(TokenType::Var)
    } else if text == "while".spec_bytes() {
        Some(TokenType::While)
    } else {
        None
    }
}

/// Whether two byte slices hold the same bytes.
pub fn same_bytes(left: &[u8], right: &[u8]) -> (same: bool)
    ensures
        same == (left@ == right@),
{
    if left.len() != right.len() {
        return false;
    }
    let mut i: usize = 0;
    while i < left.len()
        invariant
            left@.len() == right@.len(),
            i <= left@.len(),
            forall|k: int| 0 <= k < i ==> left@[k] == right@[k],
        decreases left@.len() - i,
    {
        if left[i] != right[i] {
            return false;
        }
        i += 1;
    }
    assert(left@ =~= right@);
    true
}

/// Looks `text` up among the reserved words.
pub fn keyword(text: &[u8]) -> (kind: Option<TokenType>)
    ensures
        kind == reserved_keyword(text@),
{
    if same_bytes(text, "and".as_bytes()) {
        Some(TokenType::And)
    } else if same_bytes(text, "class".as_bytes()) {
        Some(TokenType::Class)
    } else if same_bytes(text, "else".as_bytes()) {
        Some(TokenType::Else)
    } else if same_bytes(text, "false".as_bytes()) {
        Some(TokenType::False)
    } else if same_bytes(text, "for".as_bytes()) {
        Some(TokenType::For)
    } else if same_bytes(text, "fun".as_bytes()) {
        Some(TokenType::Fun)
    } else if same_bytes(text, "if".as_bytes()) {
        Some(TokenType::If)
    } else if same_bytes(text, "nil".as_bytes()) {
        Some(TokenType::Nil)
    } else if same_bytes(text, "or".as_bytes()) {
        Some(TokenType::Or)
    } else if same_bytes(text, "print".as_bytes()) {
        Some(TokenType::Print)
    } else if same_bytes(text, "return".as_bytes()) {
        Some(TokenType::Return)
    } else if same_bytes(text, "super".as_bytes()) {
        Some(TokenType::Super)
    } else if same_bytes(text, "this".as_bytes()) {
        Some(TokenType::This)
    } else if same_bytes(text, "true".as_bytes()) {
        Some(TokenType::True)
    } else if same_bytes(text, "var".as_bytes()) {
        Some(TokenType::Var)
    } else if same_bytes(text, "while".as_bytes()) {
        Some(TokenType::While)
    } else {
        None
    }
}

} // verus!
