//! Facts about the grammar that the scanner's proofs and the theorems about
//! a scan rest on.

use vstd::prelude::*;

use crate::grammar::{
    closes_comment, comment_end, eof_span, is_step, lemma_comment_end_bounds,
    lemma_run_end_bounds, lemma_step_advances, lex_from, line_at, newlines_before, opens_comment,
    run_end, step, token_at, tokens_of, ByteClass, Outcome, Span,
};
use crate::token::TokenType;

verus! {

/// A run holds only bytes of its class, and the byte behind it, if there is
/// one, is not of the class.
pub proof fn lemma_run_end_maximal(src: Seq<u8>, pos: int, class: ByteClass)
    requires
        0 <= pos <= src.len(),
    ensures
        forall|i: int| pos <= i < run_end(src, pos, class) ==> class.holds(#[trigger] src[i]),
        run_end(src, pos, class) < src.len() ==> !class.holds(src[run_end(src, pos, class)]),
    decreases src.len() - pos,
{
    if pos < src.len() && class.holds(src[pos]) {
        lemma_run_end_maximal(src, pos + 1, class);
    }
}

/// A run of a class without the line feed ends on the line on which it
/// starts.
pub proof fn lemma_run_stays_on_line(src: Seq<u8>, pos: int, class: ByteClass)
    requires
        0 <= pos <= src.len(),
        !class.holds('\n' as u8),
    ensures
        line_at(src, run_end(src, pos, class)) == line_at(src, pos),
    decreases src.len() - pos,
{
    if pos < src.len() && class.holds(src[pos]) {
        lemma_line_step(src, pos);
        lemma_run_stays_on_line(src, pos + 1, class);
    }
}

/// A comment that ends does so with the delimiter that closes it.
pub proof fn lemma_comment_end_closes(src: Seq<u8>, pos: int, depth: nat)
    requires
        0 <= pos <= src.len(),
        depth > 0,
        comment_end(src, pos, depth) is Some,
    ensures
        pos <= comment_end(src, pos, depth)->0 - 2,
        closes_comment(src, comment_end(src, pos, depth)->0 - 2),
    decreases src.len() - pos,
{
    if pos >= src.len() {
    } else if opens_comment(src, pos) {
        lemma_comment_end_closes(src, pos + 2, depth + 1);
    } else if closes_comment(src, pos) {
        if depth > 1 {
            lemma_comment_end_closes(src, pos + 2, (depth - 1) as nat);
        }
    } else {
        lemma_comment_end_closes(src, pos + 1, depth);
    }
}

/// No more line feeds stand before a position than bytes do.
pub proof fn lemma_line_bound(src: Seq<u8>, pos: int)
    requires
        0 <= pos,
    ensures
        newlines_before(src, pos) <= pos,
    decreases pos,
{
    if 0 < pos <= src.len() {
        lemma_line_bound(src, pos - 1);
    }
}

/// Passing one byte moves to the next line exactly if the byte is a line
/// feed.
pub proof fn lemma_line_step(src: Seq<u8>, pos: int)
    requires
        0 <= pos < src.len(),
    ensures
        line_at(src, pos + 1) == line_at(src, pos) + if src[pos] == '\n' as u8 {
            1nat
        } else {
            0nat
        },
{
}

/// Line numbers do not fall as the position grows.
pub proof fn lemma_line_monotonic(src: Seq<u8>, from: int, to: int)
    requires
        0 <= from <= to <= src.len(),
    ensures
        line_at(src, from) <= line_at(src, to),
    decreases to - from,
{
    if from < to {
        lemma_line_monotonic(src, from, to - 1);
    }
}

/// No step yields the end-of-input token.
pub proof fn lemma_step_never_eof(src: Seq<u8>, pos: int)
    requires
        0 <= pos < src.len(),
    ensures
        step(src, pos).outcome != Outcome::Token(TokenType::Eof),
{
}

/// A scan from `pos` is the step taken there, followed by the scan from
/// where that step ends.
pub proof fn lemma_lex_from_step(src: Seq<u8>, pos: int)
    requires
        0 <= pos < src.len(),
    ensures
        ({
            let taken = step(src, pos);
            let here = lex_from(src, pos);
            let rest = lex_from(src, taken.end);
            match taken.outcome {
                Outcome::Token(kind) => {
                    &&& tokens_of(src, here) == seq![
                        token_at(src, Span { kind, start: pos, end: taken.end }),
                    ] + tokens_of(src, rest)
                    &&& here.errors == rest.errors
                },
                Outcome::Skip => here == rest,
                Outcome::Error(error) => {
                    &&& tokens_of(src, here) == tokens_of(src, rest)
                    &&& here.errors == seq![error] + rest.errors
                },
            }
        }),
{
    let taken = step(src, pos);
    let here = lex_from(src, pos);
    let rest = lex_from(src, taken.end);
    match taken.outcome {
        Outcome::Token(kind) => {
            assert(tokens_of(src, here) =~= seq![
                token_at(src, Span { kind, start: pos, end: taken.end }),
            ] + tokens_of(src, rest));
        },
        Outcome::Skip => {},
        Outcome::Error(error) => {},
    }
}

/// The spans of a scan from `pos` lie in the source behind `pos`, each ends
/// before the later ones start, the last is the end of input and no other is.
pub proof fn lemma_lex_from_spans(src: Seq<u8>, pos: int)
    requires
        0 <= pos <= src.len(),
    ensures
        lex_from(src, pos).spans.len() >= 1,
        lex_from(src, pos).spans.last() == eof_span(src),
        forall|i: int|
            0 <= i < lex_from(src, pos).spans.len() - 1 ==> (#[trigger] lex_from(
                src,
                pos,
            ).spans[i]).kind != TokenType::Eof,
        forall|i: int|
            0 <= i < lex_from(src, pos).spans.len() - 1 ==> (#[trigger] lex_from(
                src,
                pos,
            ).spans[i]).start < lex_from(src, pos).spans[i].end,
        forall|i: int|
            0 <= i < lex_from(src, pos).spans.len() ==> pos <= (#[trigger] lex_from(
                src,
                pos,
            ).spans[i]).start <= lex_from(src, pos).spans[i].end <= src.len(),
        forall|i: int, j: int|
            0 <= i < j < lex_from(src, pos).spans.len() ==> (#[trigger] lex_from(
                src,
                pos,
            ).spans[i]).end <= (#[trigger] lex_from(src, pos).spans[j]).start,
    decreases src.len() - pos,
{
    if pos < src.len() {
        let taken = step(src, pos);
        lemma_step_advances(src, pos);
        lemma_step_never_eof(src, pos);
        lemma_lex_from_spans(src, taken.end);
        let spans = lex_from(src, pos).spans;
        let rest = lex_from(src, taken.end).spans;
        match taken.outcome {
            Outcome::Token(kind) => {
                assert(spans.len() == rest.len() + 1);
                assert(forall|i: int| 0 < i < spans.len() ==> spans[i] == rest[i - 1]);
            },
            Outcome::Skip => {},
            Outcome::Error(error) => {},
        }
    }
}

/// Every token of a scan from `pos` but the last is what the step at its
/// start yields.
pub proof fn lemma_lex_from_steps(src: Seq<u8>, pos: int)
    requires
        0 <= pos <= src.len(),
    ensures
        forall|i: int|
            0 <= i < lex_from(src, pos).spans.len() - 1 ==> is_step(
                src,
                #[trigger] lex_from(src, pos).spans[i],
            ),
    decreases src.len() - pos,
{
    if pos < src.len() {
        let taken = step(src, pos);
        lemma_step_advances(src, pos);
        lemma_lex_from_steps(src, taken.end);
        let spans = lex_from(src, pos).spans;
        let rest = lex_from(src, taken.end).spans;
        match taken.outcome {
            Outcome::Token(kind) => {
                assert(forall|i: int| 0 < i < spans.len() ==> spans[i] == rest[i - 1]);
            },
            Outcome::Skip => {},
            Outcome::Error(error) => {},
        }
    }
}

/// A token is long enough to hold the delimiters around its literal: the
/// quotes of a string, the slashes of a comment to the end of the line, the
/// opening and the closing delimiter of a comment between delimiters.
pub proof fn lemma_token_holds_its_delimiters(src: Seq<u8>, span: Span)
    requires
        is_step(src, span),
    ensures
        span.start < span.end <= src.len(),
        span.kind == TokenType::String ==> span.start + 2 <= span.end,
        span.kind == TokenType::SingleLineComment ==> span.start + 2 <= span.end,
        span.kind == TokenType::MultiLineComment ==> span.start + 4 <= span.end,
{
    let pos = span.start;
    lemma_step_advances(src, pos);
    if span.kind == TokenType::String {
        lemma_run_end_bounds(src, pos + 1, ByteClass::InString);
    } else if span.kind == TokenType::SingleLineComment {
        lemma_run_end_bounds(src, pos + 2, ByteClass::InLine);
    } else if span.kind == TokenType::MultiLineComment {
        lemma_comment_end_bounds(src, pos + 2, 1);
    }
}

} // verus!
