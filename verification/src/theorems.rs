//! What holds of every scan: how it ends, the order of its tokens, where
//! their lexemes come from, and what numbers and words look like.

use vstd::prelude::*;

use crate::grammar::{
    is_alpha, is_alphanumeric, is_digit, lemma_number_end_bounds, lemma_run_end_bounds, lex,
    line_at, run_end, token_at, tokens_of, ByteClass,
};
use crate::lemmas::{
    lemma_lex_from_spans, lemma_lex_from_steps, lemma_line_monotonic, lemma_run_end_maximal,
};
use crate::token::{reserved_keyword, LiteralView, TokenType};

verus! {

/// A scan ends with exactly one end-of-input token: it is the last token,
/// its lexeme is empty, its line is the last line of the source, and no
/// token before it is of that kind.
pub proof fn lemma_eof_is_last_and_only(src: Seq<u8>)
    ensures
        ({
            let tokens = tokens_of(src, lex(src));
            &&& tokens.len() >= 1
            &&& tokens.last().token_type == TokenType::Eof
            &&& tokens.last().lexeme == Seq::<u8>::empty()
            &&& tokens.last().literal is None
            &&& tokens.last().line == line_at(src, src.len() as int)
            &&& forall|i: int|
                0 <= i < tokens.len() - 1 ==> (#[trigger] tokens[i]).token_type != TokenType::Eof
        }),
{
    lemma_lex_from_spans(src, 0);
    let spans = lex(src).spans;
    let tokens = tokens_of(src, lex(src));
    assert(tokens.last() == token_at(src, spans.last()));
    assert(tokens.last().lexeme =~= Seq::<u8>::empty());
    assert forall|i: int| 0 <= i < tokens.len() - 1 implies (#[trigger] tokens[i]).token_type
        != TokenType::Eof by {
        assert(tokens[i] == token_at(src, spans[i]));
    }
}

/// Tokens come in source order: of two tokens the earlier one ends before
/// the later one starts, and stands on the same line or on an earlier one.
pub proof fn lemma_tokens_in_source_order(src: Seq<u8>, i: int, j: int)
    requires
        0 <= i < j < lex(src).spans.len(),
    ensures
        lex(src).spans[i].end <= lex(src).spans[j].start,
        tokens_of(src, lex(src))[i].line <= tokens_of(src, lex(src))[j].line,
{
    lemma_lex_from_spans(src, 0);
    let spans = lex(src).spans;
    assert(spans[i].start <= spans[i].end <= spans[j].start <= src.len());
    lemma_line_monotonic(src, spans[i].start, spans[j].start);
}

/// Every token's lexeme is the piece of the source at which it was found: a
/// span inside the source, not empty unless the token is the end of input.
pub proof fn lemma_lexeme_is_source_span(src: Seq<u8>, i: int)
    requires
        0 <= i < lex(src).spans.len(),
    ensures
        ({
            let span = lex(src).spans[i];
            let token = tokens_of(src, lex(src))[i];
            &&& 0 <= span.start <= span.end <= src.len()
            &&& token.token_type == span.kind
            &&& token.lexeme == src.subrange(span.start, span.end)
            &&& token.lexeme.len() == span.end - span.start
            &&& token.token_type != TokenType::Eof ==> span.start < span.end
        }),
{
    lemma_lex_from_spans(src, 0);
}

/// Whether `text` is digits up to `whole`, and behind them either nothing or
/// a dot and at least one more digit.
pub open spec fn is_decimal_split_at(text: Seq<u8>, whole: int) -> bool {
    &&& 0 < whole <= text.len()
    &&& forall|i: int| 0 <= i < whole ==> is_digit(#[trigger] text[i])
    &&& whole < text.len() ==> {
        &&& text[whole] == '.' as u8
        &&& whole + 1 < text.len()
        &&& forall|i: int| whole < i < text.len() ==> is_digit(#[trigger] text[i])
    }
}

/// Whether `text` is written as a number: digits, and then at most one dot
/// with digits behind it.
pub open spec fn is_decimal(text: Seq<u8>) -> bool {
    exists|whole: int| is_decimal_split_at(text, whole)
}

/// A number token is written as a number, and is as long as it can be: no
/// digit follows it, and if it has no fraction, no dot with a digit behind
/// it either. Its literal is its lexeme.
pub proof fn lemma_number_is_decimal(src: Seq<u8>, i: int)
    requires
        0 <= i < lex(src).spans.len(),
        lex(src).spans[i].kind == TokenType::Number,
    ensures
        ({
            let span = lex(src).spans[i];
            let token = tokens_of(src, lex(src))[i];
            &&& is_decimal(token.lexeme)
            &&& token.literal == Some(LiteralView::Number(token.lexeme))
            &&& span.end < src.len() ==> !is_digit(src[span.end])
            &&& span.end == run_end(src, span.start, ByteClass::Digit) && span.end + 1 < src.len()
                && src[span.end] == '.' as u8 ==> !is_digit(src[span.end + 1])
        }),
{
    lemma_lex_from_spans(src, 0);
    lemma_lex_from_steps(src, 0);
    let span = lex(src).spans[i];
    let pos = span.start;
    let whole = run_end(src, pos, ByteClass::Digit);
    lemma_number_end_bounds(src, pos);
    lemma_run_end_bounds(src, pos, ByteClass::Digit);
    lemma_run_end_maximal(src, pos, ByteClass::Digit);
    let text = src.subrange(span.start, span.end);
    if whole + 2 <= src.len() {
        lemma_run_end_bounds(src, whole + 2, ByteClass::Digit);
    }
    if span.end != whole {
        lemma_run_end_maximal(src, whole + 2, ByteClass::Digit);
        assert forall|k: int| whole - pos < k < text.len() implies is_digit(#[trigger] text[k]) by {
            if k > whole - pos + 1 {
                assert(ByteClass::Digit.holds(src[pos + k]));
            }
        }
    }
    assert forall|k: int| 0 <= k < whole - pos implies is_digit(#[trigger] text[k]) by {
        assert(ByteClass::Digit.holds(src[pos + k]));
    }
    assert(is_decimal_split_at(text, whole - pos));
}

/// A token that starts with a letter or `_` is the longest word at its
/// place: it is made of letters, digits and `_`, no such byte follows it,
/// and it is a keyword exactly if the whole of it spells one.
pub proof fn lemma_word_is_longest(src: Seq<u8>, i: int)
    requires
        0 <= i < lex(src).spans.len() - 1,
        is_alpha(src[lex(src).spans[i].start]),
    ensures
        ({
            let span = lex(src).spans[i];
            let token = tokens_of(src, lex(src))[i];
            &&& forall|k: int| 0 <= k < token.lexeme.len() ==> is_alphanumeric(
                #[trigger] token.lexeme[k],
            )
            &&& span.end < src.len() ==> !is_alphanumeric(src[span.end])
            &&& token.token_type == match reserved_keyword(token.lexeme) {
                Some(kind) => kind,
                None => TokenType::Identifier,
            }
            &&& token.literal is None
        }),
{
    lemma_lex_from_spans(src, 0);
    lemma_lex_from_steps(src, 0);
    let span = lex(src).spans[i];
    let token = tokens_of(src, lex(src))[i];
    lemma_run_end_bounds(src, span.start, ByteClass::Word);
    lemma_run_end_maximal(src, span.start, ByteClass::Word);
    assert forall|k: int| 0 <= k < token.lexeme.len() implies is_alphanumeric(
        #[trigger] token.lexeme[k],
    ) by {
        assert(ByteClass::Word.holds(src[span.start + k]));
    }
}

} // verus!
