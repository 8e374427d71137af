//! The scanner: one pass over a source buffer, yielding tokens and errors.

use vstd::prelude::*;
use vstd::string::StringSliceAdditionalSpecFns;

use crate::grammar::{
    byte_at, comment_end, is_alpha, is_digit, lemma_comment_end_bounds, lemma_run_end_bounds,
    lemma_step_advances, lex, lex_from, line_at, number_end, run_end, step, token_at, tokens_of,
    ByteClass, Outcome, Span,
};
use crate::lemmas::{
    lemma_lex_from_step, lemma_line_bound, lemma_line_step, lemma_run_stays_on_line,
};
use crate::theorems::{lemma_eof_is_last_and_only, lemma_tokens_in_source_order};
use crate::token::{keyword, token_views, Lexeme, Literal, Token, TokenType, TokenView};

verus! {

/// Why a piece of the source yielded no token.
#[derive(Debug, Clone, Copy, PartialEq, Eq, Structural)]
pub enum ScanError {
    /// A byte that starts no token.
    UnexpectedCharacter(u8),
    /// A string whose closing quote is missing.
    UnterminatedString,
    /// A comment that is still open where the source ends.
    UnterminatedMultiLineComment,
}

/// A scanner over one source buffer. It is made once, and used up by one
/// pass; the tokens it yields borrow from the buffer.
pub struct Scanner<'source> {
    source: &'source [u8],
    /// The tokens found so far.
    pub tokens: Vec<Token<'source>>,
    start: usize,
    current: usize,
    line: usize,
}

impl<'source> Scanner<'source> {
    /// The bytes of the source buffer.
    pub closed spec fn bytes(&self) -> Seq<u8> {
        self.source@
    }

    /// The scanner is as `new` makes it: nothing has been consumed or
    /// produced yet.
    pub closed spec fn fresh(&self) -> bool {
        &&& self.start == 0
        &&& self.current == 0
        &&& self.line == 1
        &&& self.tokens@.len() == 0
        &&& self.source@.len() < usize::MAX
    }

    /// The cursor stands inside a lexeme under construction, and `line` is
    /// the line on which that lexeme starts.
    spec fn scanning(&self) -> bool {
        &&& self.start <= self.current <= self.source@.len()
        &&& self.source@.len() < usize::MAX
        &&& self.line == line_at(self.source@, self.start as int)
    }

    /// `next` is `self` with the cursor moved to `current`.
    spec fn moved_to(&self, next: &Self, current: int) -> bool {
        &&& next.source == self.source
        &&& next.tokens@ == self.tokens@
        &&& next.start == self.start
        &&& next.line == self.line
        &&& next.current == current
    }

    /// `next` is `self` with the cursor moved to `current` and `token`
    /// appended to the tokens.
    spec fn pushed_at(&self, next: &Self, current: int, token: TokenView) -> bool {
        &&& next.source == self.source
        &&& next.start == self.start
        &&& next.line == self.line
        &&& next.current == current
        &&& token_views(next.tokens@) == token_views(self.tokens@).push(token)
    }

    /// `next` is `self` after the step from `start` was taken: the cursor
    /// stands at the step's end, `line` is the line there, and the token, if
    /// the step yields one, is the last of `tokens`.
    spec fn stepped_to(&self, next: &Self, result: Result<(), ScanError>) -> bool {
        let src = self.source@;
        let taken = step(src, self.start as int);
        &&& next.source == self.source
        &&& next.start == self.start
        &&& next.current == taken.end
        &&& next.line == line_at(src, taken.end)
        &&& match taken.outcome {
            Outcome::Token(kind) => {
                &&& result is Ok
                &&& token_views(next.tokens@) == token_views(self.tokens@).push(
                    token_at(src, Span { kind, start: self.start as int, end: taken.end }),
                )
            },
            Outcome::Skip => result is Ok && next.tokens@ == self.tokens@,
            Outcome::Error(error) => result == Err::<(), ScanError>(error) && next.tokens@
                == self.tokens@,
        }
    }

    /// A scanner at the start of `source`. The source must be shorter than
    /// `usize::MAX` bytes, so that its lines can be counted.
    pub fn new(source: &'source str) -> (scanner: Self)
        requires
            source.len() < usize::MAX,
        ensures
            scanner.fresh(),
            scanner.bytes() == source.spec_bytes(),
    {
        let bytes = source.as_bytes();
        assert(bytes@.len() == bytes.len());
        Self { source: bytes, tokens: Vec::new(), start: 0, current: 0, line: 1 }
    }

    /// Scans the whole source. The tokens come in source order and end with
    /// the end-of-input token; the errors come in the order in which they
    /// were met, and none of them stops the pass.
    pub fn scan_tokens(self) -> (out: (Vec<Token<'source>>, Vec<ScanError>))
        requires
            self.fresh(),
        ensures
            token_views(out.0@) == tokens_of(self.bytes(), lex(self.bytes())),
            out.1@ == lex(self.bytes()).errors,
            out.0@.len() == lex(self.bytes()).spans.len() >= 1,
            out.0@.last().token_type == TokenType::Eof,
            forall|i: int|
                0 <= i < out.0@.len() - 1 ==> (#[trigger] out.0@[i]).token_type != TokenType::Eof,
            forall|i: int, j: int|
                0 <= i < j < out.0@.len() ==> (#[trigger] out.0@[i]).line <= (
                #[trigger] out.0@[j]).line,
    {
        let mut scanner = self;
        let ghost src = scanner.source@;
        let mut scan_errors: Vec<ScanError> = Vec::new();
        assert(token_views(scanner.tokens@) + tokens_of(src, lex_from(src, 0)) =~= tokens_of(
            src,
            lex(src),
        ));
        assert(scan_errors@ + lex_from(src, 0).errors =~= lex(src).errors);

        while !scanner.is_at_end()
            invariant
                scanner.source@ == src,
                src.len() < usize::MAX,
                scanner.current <= src.len(),
                scanner.line == line_at(src, scanner.current as int),
                tokens_of(src, lex(src)) == token_views(scanner.tokens@) + tokens_of(
                    src,
                    lex_from(src, scanner.current as int),
                ),
                lex(src).errors == scan_errors@ + lex_from(src, scanner.current as int).errors,
            decreases src.len() - scanner.current,
        {
            scanner.start = scanner.current;
            let ghost before = scanner;
            let ghost errors_before = scan_errors@;
            proof {
                lemma_step_advances(src, scanner.start as int);
                lemma_lex_from_step(src, scanner.start as int);
            }
            match scanner.scan_next_token() {
                Ok(()) => {},
                Err(error) => {
                    scan_errors.push(error);
                },
            }
            proof {
                let taken = step(src, before.start as int);
                let rest = lex_from(src, taken.end);
                match taken.outcome {
                    Outcome::Token(kind) => {
                        let token = token_at(
                            src,
                            Span { kind, start: before.start as int, end: taken.end },
                        );
                        assert(token_views(before.tokens@).push(token) + tokens_of(src, rest)
                            =~= token_views(before.tokens@) + (seq![token] + tokens_of(
                            src,
                            rest,
                        )));
                    },
                    Outcome::Skip => {},
                    Outcome::Error(error) => {
                        assert(errors_before.push(error) + rest.errors =~= errors_before + (
                        seq![error] + rest.errors));
                    },
                }
            }
        }

        let end: usize = scanner.current;
        let eof = Token {
            token_type: TokenType::Eof,
            lexeme: Lexeme(&scanner.source[end..end]),
            literal: None,
            line: scanner.line,
        };
        scanner.tokens.push(eof);
        proof {
            let before = token_views(scanner.tokens@.drop_last());
            assert(tokens_of(src, lex_from(src, end as int)) =~= seq![eof@]);
            assert(token_views(scanner.tokens@) =~= before + seq![eof@]);

            let found = scanner.tokens@;
            let expected = tokens_of(src, lex(src));
            assert(forall|i: int| 0 <= i < found.len() ==> found[i]@ == expected[i]);
            lemma_eof_is_last_and_only(src);
            assert forall|i: int| 0 <= i < found.len() - 1 implies (#[trigger] found[i]).token_type
                != TokenType::Eof by {
                assert(found[i]@ == expected[i]);
            }
            assert forall|i: int, j: int| 0 <= i < j < found.len() implies (
            #[trigger] found[i]).line <= (#[trigger] found[j]).line by {
                lemma_tokens_in_source_order(src, i, j);
                assert(found[i]@ == expected[i]);
                assert(found[j]@ == expected[j]);
            }
        }
        (scanner.tokens, scan_errors)
    }

    /// Takes the step that starts at the cursor.
    fn scan_next_token(&mut self) -> (result: Result<(), ScanError>)
        requires
            old(self).scanning(),
            old(self).start == old(self).current,
            old(self).current < old(self).source@.len(),
        ensures
            old(self).stepped_to(final(self), result),
    {
        let ghost src = self.source@;
        let ghost pos = self.start as int;
        proof {
            lemma_line_bound(src, pos);
            lemma_line_step(src, pos);
            if pos + 1 < src.len() {
                lemma_line_step(src, pos + 1);
            }
        }
        let next_character = self.advance();

        if next_character == '(' as u8 {
            self.push_single_character_token_object(TokenType::LeftParen);
            Ok(())
        } else if next_character == ')' as u8 {
            self.push_single_character_token_object(TokenType::RightParen);
            Ok(())
        } else if next_character == '{' as u8 {
            self.push_single_character_token_object(TokenType::LeftBrace);
            Ok(())
        } else if next_character == '}' as u8 {
            self.push_single_character_token_object(TokenType::RightBrace);
            Ok(())
        } else if next_character == ',' as u8 {
            self.push_single_character_token_object(TokenType::Comma);
            Ok(())
        } else if next_character == '.' as u8 {
            self.push_single_character_token_object(TokenType::Dot);
            Ok(())
        } else if next_character == '-' as u8 {
            self.push_single_character_token_object(TokenType::Minus);
            Ok(())
        } else if next_character == '+' as u8 {
            self.push_single_character_token_object(TokenType::Plus);
            Ok(())
        } else if next_character == ';' as u8 {
            self.push_single_character_token_object(TokenType::Semicolon);
            Ok(())
        } else if next_character == '*' as u8 {
            self.push_single_character_token_object(TokenType::Star);
            Ok(())
        } else if next_character == '!' as u8 {
            self.push_two_character_token_object('=' as u8, TokenType::BangEqual, TokenType::Bang);
            Ok(())
        } else if next_character == '=' as u8 {
            self.push_two_character_token_object(
                '=' as u8,
                TokenType::EqualEqual,
                TokenType::Equal,
            );
            Ok(())
        } else if next_character == '>' as u8 {
            self.push_two_character_token_object(
                '=' as u8,
                TokenType::GreaterEqual,
                TokenType::Greater,
            );
            Ok(())
        } else if next_character == '<' as u8 {
            self.push_two_character_token_object('=' as u8, TokenType::LessEqual, TokenType::Less);
            Ok(())
        } else if next_character == '/' as u8 {
            self.comment_or_slash()
        } else if next_character == ' ' as u8 || next_character == '\r' as u8 || next_character
            == '\t' as u8 {
            Ok(())
        } else if next_character == '\n' as u8 {
            self.line += 1;
            Ok(())
        } else if next_character == '"' as u8 {
            self.string()
        } else if next_character >= '0' as u8 && next_character <= '9' as u8 {
            self.number()
        } else if next_character == '_' as u8 || (next_character >= 'a' as u8 && next_character
            <= 'z' as u8) || (next_character >= 'A' as u8 && next_character <= 'Z' as u8) {
            self.keyword_or_identifier()
        } else {
            Err(ScanError::UnexpectedCharacter(next_character))
        }
    }

    /// Emits the token that spans `start..current`, with no literal.
    fn push_single_character_token_object(&mut self, next_token_type: TokenType)
        requires
            old(self).scanning(),
        ensures
            old(self).pushed_at(
                final(self),
                old(self).current as int,
                TokenView {
                    token_type: next_token_type,
                    lexeme: old(self).source@.subrange(
                        old(self).start as int,
                        old(self).current as int,
                    ),
                    literal: None,
                    line: old(self).line as nat,
                },
            ),
    {
        let next_token = self.create_token_object(next_token_type, None);
        self.push_token(next_token);
    }

    /// Emits `double` and consumes `expected` if it is the next byte; emits
    /// `single` otherwise.
    fn push_two_character_token_object(
        &mut self,
        expected: u8,
        double: TokenType,
        single: TokenType,
    )
        requires
            old(self).scanning(),
        ensures
            ({
                let matched = byte_at(old(self).source@, old(self).current as int) == Some(
                    expected,
                );
                let end = if matched {
                    old(self).current + 1
                } else {
                    old(self).current as int
                };
                old(self).pushed_at(
                    final(self),
                    end,
                    TokenView {
                        token_type: if matched {
                            double
                        } else {
                            single
                        },
                        lexeme: old(self).source@.subrange(old(self).start as int, end),
                        literal: None,
                        line: old(self).line as nat,
                    },
                )
            }),
    {
        let next_token_type = if self.match_next(expected) {
            double
        } else {
            single
        };
        let next_token = self.create_token_object(next_token_type, None);
        self.push_token(next_token);
    }

    /// Appends `token` to the tokens found so far.
    fn push_token(&mut self, token: Token<'source>)
        ensures
            old(self).pushed_at(final(self), old(self).current as int, token@),
    {
        self.tokens.push(token);
        assert(token_views(self.tokens@) =~= token_views(old(self).tokens@).push(token@));
    }

    /// The byte under the cursor.
    fn peek(&self) -> (next: Option<u8>)
        ensures
            next == byte_at(self.source@, self.current as int),
    {
        if self.is_at_end() {
            None
        } else {
            Some(self.source[self.current])
        }
    }

    /// The byte behind the one under the cursor.
    fn peek_next(&self) -> (next: Option<u8>)
        requires
            self.current < usize::MAX,
        ensures
            next == byte_at(self.source@, self.current + 1),
    {
        if self.current + 1 >= self.source.len() {
            None
        } else {
            Some(self.source[self.current + 1])
        }
    }

    /// Whether the cursor stands behind the last byte.
    fn is_at_end(&self) -> (at_end: bool)
        ensures
            at_end == (self.current >= self.source@.len()),
    {
        self.current >= self.source.len()
    }

    /// Consumes the byte under the cursor.
    fn advance(&mut self) -> (byte: u8)
        requires
            old(self).current < old(self).source@.len(),
        ensures
            old(self).moved_to(final(self), old(self).current + 1),
            byte == old(self).source@[old(self).current as int],
    {
        let result = self.source[self.current];
        self.current += 1;
        result
    }

    /// Consumes the byte under the cursor if it is `expected`.
    fn match_next(&mut self, expected: u8) -> (matched: bool)
        requires
            old(self).current <= old(self).source@.len(),
        ensures
            matched == (byte_at(old(self).source@, old(self).current as int) == Some(expected)),
            old(self).moved_to(
                final(self),
                if matched {
                    old(self).current + 1
                } else {
                    old(self).current as int
                },
            ),
    {
        if self.is_at_end() {
            return false;
        }
        if self.source[self.current] != expected {
            return false;
        }
        self.current += 1;
        true
    }

    /// The token that spans `start..current`, on the line where it starts.
    fn create_token_object(
        &self,
        token_type: TokenType,
        literal: Option<Literal<'source>>,
    ) -> (token: Token<'source>)
        requires
            self.start <= self.current <= self.source@.len(),
        ensures
            token.token_type == token_type,
            token.lexeme@ == self.source@.subrange(self.start as int, self.current as int),
            token.literal == literal,
            token.line == self.line,
    {
        let text = &self.source[self.start..self.current];
        Token { token_type, lexeme: Lexeme(text), literal, line: self.line }
    }

    /// Consumes the longest run of bytes of `class` under the cursor.
    fn consume_run(&mut self, class: ByteClass)
        requires
            old(self).current <= old(self).source@.len(),
        ensures
            old(self).moved_to(
                final(self),
                run_end(old(self).source@, old(self).current as int, class),
            ),
            old(self).current <= final(self).current <= old(self).source@.len(),
    {
        let ghost entry = self.current as int;
        while !self.is_at_end() && class.contains(self.source[self.current])
            invariant
                old(self).moved_to(self, self.current as int),
                entry <= self.current <= self.source@.len(),
                run_end(self.source@, self.current as int, class) == run_end(
                    self.source@,
                    entry,
                    class,
                ),
            decreases self.source@.len() - self.current,
        {
            self.advance();
        }
    }

    /// Consumes the digits under the cursor.
    fn consume_digits(&mut self)
        requires
            old(self).current <= old(self).source@.len(),
        ensures
            old(self).moved_to(
                final(self),
                run_end(old(self).source@, old(self).current as int, ByteClass::Digit),
            ),
            old(self).current <= final(self).current <= old(self).source@.len(),
    {
        self.consume_run(ByteClass::Digit);
    }

    /// Scans a number whose first digit has been consumed.
    fn number(&mut self) -> (result: Result<(), ScanError>)
        requires
            old(self).scanning(),
            old(self).current == old(self).start + 1,
            is_digit(old(self).source@[old(self).start as int]),
        ensures
            old(self).stepped_to(final(self), result),
    {
        let ghost src = self.source@;
        let ghost pos = self.start as int;
        let ghost whole = run_end(src, pos, ByteClass::Digit);
        self.consume_digits();
        proof {
            lemma_run_stays_on_line(src, pos, ByteClass::Digit);
        }

        if self.peek() == Some('.' as u8) {
            if let Some(ch) = self.peek_next() {
                if ch >= '0' as u8 && ch <= '9' as u8 {
                    self.advance();
                    self.consume_digits();
                    proof {
                        lemma_line_step(src, whole);
                        lemma_line_step(src, whole + 1);
                        lemma_run_stays_on_line(src, whole + 2, ByteClass::Digit);
                        lemma_run_end_bounds(src, whole + 2, ByteClass::Digit);
                    }
                }
            }
        }
        assert(self.current == number_end(src, pos));

        let value = &self.source[self.start..self.current];
        let next_token = self.create_token_object(TokenType::Number, Some(Literal::Number(value)));
        self.push_token(next_token);
        Ok(())
    }

    /// Scans a word whose first byte has been consumed: a keyword if it
    /// spells one, an identifier otherwise.
    fn keyword_or_identifier(&mut self) -> (result: Result<(), ScanError>)
        requires
            old(self).scanning(),
            old(self).current == old(self).start + 1,
            is_alpha(old(self).source@[old(self).start as int]),
        ensures
            old(self).stepped_to(final(self), result),
    {
        let ghost src = self.source@;
        let ghost pos = self.start as int;
        self.consume_run(ByteClass::Word);
        proof {
            lemma_run_stays_on_line(src, pos, ByteClass::Word);
        }

        let text = &self.source[self.start..self.current];
        let token_type = match keyword(text) {
            Some(reserved) => reserved,
            None => TokenType::Identifier,
        };

        let next_token = self.create_token_object(token_type, None);
        self.push_token(next_token);
        Ok(())
    }

    /// Scans a string whose opening quote has been consumed.
    fn string(&mut self) -> (result: Result<(), ScanError>)
        requires
            old(self).scanning(),
            old(self).current == old(self).start + 1,
            old(self).source@[old(self).start as int] == '"' as u8,
        ensures
            old(self).stepped_to(final(self), result),
    {
        let ghost src = self.source@;
        let ghost pos = self.start as int;
        let mut line: usize = self.line;
        proof {
            lemma_line_step(src, pos);
        }

        while self.peek() != Some('"' as u8) && !self.is_at_end()
            invariant
                old(self).moved_to(self, self.current as int),
                src == self.source@,
                src.len() < usize::MAX,
                pos < self.current <= src.len(),
                run_end(src, self.current as int, ByteClass::InString) == run_end(
                    src,
                    pos + 1,
                    ByteClass::InString,
                ),
                line == line_at(src, self.current as int),
            decreases src.len() - self.current,
        {
            proof {
                lemma_line_step(src, self.current as int);
                lemma_line_bound(src, self.current as int);
            }
            if self.peek() == Some('\n' as u8) {
                line += 1;
            }
            self.advance();
        }

        if self.is_at_end() {
            self.line = line;
            Err(ScanError::UnterminatedString)
        } else {
            proof {
                lemma_line_step(src, self.current as int);
            }
            // Closing quote
            self.advance();

            let value = &self.source[self.start + 1..self.current - 1];
            let next_token = self.create_token_object(
                TokenType::String,
                Some(Literal::String(value)),
            );
            self.push_token(next_token);
            self.line = line;
            Ok(())
        }
    }

    /// Scans what a consumed `/` starts: a comment of either form, or the
    /// operator alone.
    fn comment_or_slash(&mut self) -> (result: Result<(), ScanError>)
        requires
            old(self).scanning(),
            old(self).current == old(self).start + 1,
            old(self).source@[old(self).start as int] == '/' as u8,
        ensures
            old(self).stepped_to(final(self), result),
    {
        let ghost src = self.source@;
        let ghost pos = self.start as int;
        proof {
            lemma_line_step(src, pos);
        }
        if self.match_next('/' as u8) {
            proof {
                lemma_line_step(src, pos + 1);
                lemma_run_stays_on_line(src, pos + 2, ByteClass::InLine);
            }
            self.consume_run(ByteClass::InLine);

            // Without the leading slashes
            let value = &self.source[self.start + 2..self.current];
            let next_token = self.create_token_object(
                TokenType::SingleLineComment,
                Some(Literal::String(value)),
            );
            self.push_token(next_token);
            Ok(())
        } else if self.match_next('*' as u8) {
            // Found the outermost multi-line comment
            self.multiline_comment_context()
        } else {
            self.push_single_character_token_object(TokenType::Slash);
            Ok(())
        }
    }

    /// Scans a comment whose opening `/*` has been consumed, to the `*/`
    /// that closes it. Comments nest to any depth.
    fn multiline_comment_context(&mut self) -> (result: Result<(), ScanError>)
        requires
            old(self).scanning(),
            old(self).current == old(self).start + 2,
            old(self).source@[old(self).start as int] == '/' as u8,
            old(self).source@[old(self).start + 1] == '*' as u8,
        ensures
            old(self).stepped_to(final(self), result),
    {
        let ghost src = self.source@;
        let ghost pos = self.start as int;
        // The opening delimiter is consumed already, so the level starts at 1
        let mut current_level: usize = 1;
        let mut line: usize = self.line;
        proof {
            lemma_line_step(src, pos);
            lemma_line_step(src, pos + 1);
        }

        while current_level > 0 && !self.is_at_end()
            invariant
                old(self).moved_to(self, self.current as int),
                src == self.source@,
                src.len() < usize::MAX,
                0 <= pos,
                pos + 2 <= self.current <= src.len(),
                current_level < self.current - pos,
                comment_end(src, self.current as int, current_level as nat) == comment_end(
                    src,
                    pos + 2,
                    1,
                ),
                line == line_at(src, self.current as int),
            decreases src.len() - self.current,
        {
            proof {
                lemma_line_step(src, self.current as int);
                lemma_line_bound(src, self.current as int);
                if self.current + 1 < src.len() {
                    lemma_line_step(src, self.current + 1);
                }
            }
            let ch = self.advance();
            if ch == '/' as u8 {
                if self.match_next('*' as u8) {
                    current_level += 1;
                }
            } else if ch == '*' as u8 {
                if self.match_next('/' as u8) {
                    current_level -= 1;
                }
            } else if ch == '\n' as u8 {
                line += 1;
            }
        }

        if current_level > 0 {
            // One of the comments was left open
            self.line = line;
            Err(ScanError::UnterminatedMultiLineComment)
        } else {
            proof {
                lemma_comment_end_bounds(src, pos + 2, 1);
            }
            let text = &self.source[self.start + 2..self.current - 2];
            let next_token = self.create_token_object(
                TokenType::MultiLineComment,
                Some(Literal::String(text)),
            );
            self.push_token(next_token);
            self.line = line;
            Ok(())
        }
    }
}

} // verus!
