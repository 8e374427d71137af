//! Tokens as text: a source that is valid UTF-8 yields lexemes and literals
//! that are valid UTF-8, because every token starts and ends at an ASCII byte
//! or at the end of the source.

use vstd::prelude::*;
use vstd::utf8::{
    is_char_boundary, is_char_boundary_iff_not_is_continuation_byte,
    is_char_boundary_start_end_of_seq, length_of_first_scalar, pop_first_scalar, valid_utf8,
    valid_utf8_split,
};

use crate::grammar::{is_step, lemma_run_end_bounds, lex, run_end, tokens_of, ByteClass, Span};
use crate::lemmas::{
    lemma_comment_end_closes, lemma_lex_from_spans, lemma_lex_from_steps, lemma_run_end_maximal,
    lemma_token_holds_its_delimiters,
};
use crate::token::{LiteralView, TokenType};

verus! {

/// Whether `b` is an ASCII byte.
pub open spec fn is_ascii_byte(b: u8) -> bool {
    b < 0x80
}

/// In valid UTF-8 an ASCII byte is a character of its own: a character
/// starts at it, and another one, or nothing, behind it.
pub proof fn lemma_ascii_byte_is_a_character(bytes: Seq<u8>, index: int)
    requires
        valid_utf8(bytes),
        0 <= index < bytes.len(),
        is_ascii_byte(bytes[index]),
    ensures
        is_char_boundary(bytes, index),
        is_char_boundary(bytes, index + 1),
    decreases bytes.len(),
{
    reveal_with_fuel(is_char_boundary, 3);
    if index < length_of_first_scalar(bytes) {
        assert(index == 0);
    } else {
        let rest = pop_first_scalar(bytes);
        assert(rest[index - length_of_first_scalar(bytes)] == bytes[index]);
        lemma_ascii_byte_is_a_character(rest, index - length_of_first_scalar(bytes));
    }
}

/// The piece of valid UTF-8 between two character boundaries is valid UTF-8.
pub proof fn lemma_piece_between_boundaries_is_valid(bytes: Seq<u8>, from: int, to: int)
    requires
        valid_utf8(bytes),
        0 <= from <= to <= bytes.len(),
        is_char_boundary(bytes, from),
        is_char_boundary(bytes, to),
    ensures
        valid_utf8(bytes.subrange(from, to)),
{
    let head = bytes.subrange(0, to);
    valid_utf8_split(bytes, to);
    if from < to {
        is_char_boundary_iff_not_is_continuation_byte(bytes, from);
        assert(head[from] == bytes[from]);
        is_char_boundary_iff_not_is_continuation_byte(head, from);
    } else {
        is_char_boundary_start_end_of_seq(head);
    }
    valid_utf8_split(head, from);
    assert(head.subrange(from, head.len() as int) =~= bytes.subrange(from, to));
}

/// A token starts and ends between characters, and so does the text of its
/// literal.
pub proof fn lemma_token_lies_between_characters(src: Seq<u8>, span: Span)
    requires
        valid_utf8(src),
        is_step(src, span),
    ensures
        is_char_boundary(src, span.start),
        is_char_boundary(src, span.end),
        span.kind == TokenType::String ==> is_char_boundary(src, span.start + 1)
            && is_char_boundary(src, span.end - 1),
        span.kind == TokenType::SingleLineComment ==> is_char_boundary(src, span.start + 2),
        span.kind == TokenType::MultiLineComment ==> is_char_boundary(src, span.start + 2)
            && is_char_boundary(src, span.end - 2),
{
    let pos = span.start;
    let end = span.end;
    let b = src[pos];
    lemma_token_holds_its_delimiters(src, span);
    assert(is_ascii_byte(b));
    lemma_ascii_byte_is_a_character(src, pos);
    is_char_boundary_start_end_of_seq(src);
    if span.kind == TokenType::SingleLineComment {
        lemma_ascii_byte_is_a_character(src, pos + 1);
        lemma_run_end_maximal(src, pos + 2, ByteClass::InLine);
        if end < src.len() {
            lemma_ascii_byte_is_a_character(src, end);
        }
    } else if span.kind == TokenType::MultiLineComment {
        lemma_ascii_byte_is_a_character(src, pos + 1);
        lemma_comment_end_closes(src, pos + 2, 1);
        lemma_ascii_byte_is_a_character(src, end - 2);
        lemma_ascii_byte_is_a_character(src, end - 1);
    } else if span.kind == TokenType::String {
        lemma_run_end_bounds(src, pos + 1, ByteClass::InString);
        lemma_run_end_maximal(src, pos + 1, ByteClass::InString);
        lemma_ascii_byte_is_a_character(src, end - 1);
    } else if span.kind == TokenType::Number {
        let whole = run_end(src, pos, ByteClass::Digit);
        lemma_run_end_bounds(src, pos, ByteClass::Digit);
        lemma_run_end_maximal(src, pos, ByteClass::Digit);
        if end != whole {
            lemma_run_end_bounds(src, whole + 2, ByteClass::Digit);
            lemma_run_end_maximal(src, whole + 2, ByteClass::Digit);
        }
        assert(is_ascii_byte(src[end - 1]));
        lemma_ascii_byte_is_a_character(src, end - 1);
    } else if b == '!' as u8 || b == '=' as u8 || b == '<' as u8 || b == '>' as u8 {
        if end == pos + 2 {
            lemma_ascii_byte_is_a_character(src, pos + 1);
        }
    } else if end != pos + 1 {
        lemma_run_end_bounds(src, pos, ByteClass::Word);
        lemma_run_end_maximal(src, pos, ByteClass::Word);
        assert(is_ascii_byte(src[end - 1]));
        lemma_ascii_byte_is_a_character(src, end - 1);
    }
}

/// The tokens of a source that is valid UTF-8 are valid UTF-8 themselves:
/// every lexeme, and the bytes of every literal.
pub proof fn lemma_tokens_are_text(src: Seq<u8>, i: int)
    requires
        valid_utf8(src),
        0 <= i < lex(src).spans.len(),
    ensures
        valid_utf8(tokens_of(src, lex(src))[i].lexeme),
        match tokens_of(src, lex(src))[i].literal {
            Some(LiteralView::Number(digits)) => valid_utf8(digits),
            Some(LiteralView::String(text)) => valid_utf8(text),
            None => true,
        },
{
    let span = lex(src).spans[i];
    lemma_lex_from_spans(src, 0);
    lemma_lex_from_steps(src, 0);
    if i < lex(src).spans.len() - 1 {
        lemma_token_holds_its_delimiters(src, span);
        lemma_token_lies_between_characters(src, span);
        lemma_piece_between_boundaries_is_valid(src, span.start, span.end);
        if span.kind == TokenType::String {
            lemma_piece_between_boundaries_is_valid(src, span.start + 1, span.end - 1);
        } else if span.kind == TokenType::SingleLineComment {
            lemma_piece_between_boundaries_is_valid(src, span.start + 2, span.end);
        } else if span.kind == TokenType::MultiLineComment {
            lemma_piece_between_boundaries_is_valid(src, span.start + 2, span.end - 2);
        }
    } else {
        assert(src.subrange(span.start, span.end) =~= Seq::<u8>::empty());
    }
}

} // verus!
