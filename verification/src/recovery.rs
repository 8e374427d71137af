//! Recovery from an unexpected byte: where the scan meets a byte that starts
//! no token, it records one error and goes on, and every token comes out as
//! if a blank stood in the byte's place.

use vstd::prelude::*;

use crate::grammar::{
    closes_comment, comment_end, is_unexpected, lemma_run_end_bounds, lemma_step_advances, lex,
    lex_from, line_at, opens_comment, run_end, step, token_at, tokens_of, ByteClass, Outcome,
    Step,
};
use crate::lemmas::{
    lemma_lex_from_spans, lemma_lex_from_steps, lemma_token_holds_its_delimiters,
};
use crate::scanner::ScanError;
use crate::token::TokenType;

verus! {

/// At a byte that starts no token the scan yields one error and no token,
/// and goes on with the byte behind it.
pub proof fn lemma_scan_goes_on_behind_unexpected_byte(src: Seq<u8>, pos: int)
    requires
        0 <= pos < src.len(),
        is_unexpected(src[pos]),
    ensures
        lex_from(src, pos).spans == lex_from(src, pos + 1).spans,
        lex_from(src, pos).errors == seq![ScanError::UnexpectedCharacter(src[pos])] + lex_from(
            src,
            pos + 1,
        ).errors,
{
}

/// Whether the scan from `from` takes a step at `pos`: `pos` is where it
/// starts, or where one of its steps ends and the next one begins.
pub open spec fn steps_at(src: Seq<u8>, from: int, pos: int) -> bool
    decreases src.len() - from,
    via steps_at_decreases
{
    if from == pos {
        0 <= pos < src.len()
    } else if 0 <= from < pos && from < src.len() {
        steps_at(src, step(src, from).end, pos)
    } else {
        false
    }
}

#[via_fn]
proof fn steps_at_decreases(src: Seq<u8>, from: int, pos: int) {
    if 0 <= from < src.len() {
        lemma_step_advances(src, from);
    }
}

/// `src` with a blank in place of the byte at `pos`.
pub open spec fn blanked(src: Seq<u8>, pos: int) -> Seq<u8> {
    src.update(pos, ' ' as u8)
}

/// Whether `longer` is `shorter` with `error` put in at some place.
pub open spec fn has_one_more(
    longer: Seq<ScanError>,
    shorter: Seq<ScanError>,
    error: ScanError,
) -> bool {
    exists|k: int| is_inserted_at(longer, shorter, error, k)
}

/// Whether `longer` is `shorter` with `error` put in at index `k`.
pub open spec fn is_inserted_at(
    longer: Seq<ScanError>,
    shorter: Seq<ScanError>,
    error: ScanError,
    k: int,
) -> bool {
    0 <= k <= shorter.len() && longer == shorter.insert(k, error)
}

/// A blank in place of an unexpected byte changes the end of no run.
proof fn lemma_run_end_blanked(src: Seq<u8>, pos: int, from: int, class: ByteClass)
    requires
        0 <= pos < src.len(),
        is_unexpected(src[pos]),
    ensures
        run_end(blanked(src, pos), from, class) == run_end(src, from, class),
    decreases src.len() - from,
{
    if 0 <= from < src.len() && class.holds(src[from]) {
        lemma_run_end_blanked(src, pos, from + 1, class);
    }
}

/// A run that starts at or before a byte that is not of its class ends at
/// or before that byte.
proof fn lemma_run_stops_at(src: Seq<u8>, from: int, pos: int, class: ByteClass)
    requires
        0 <= from <= pos < src.len(),
        !class.holds(src[pos]),
    ensures
        run_end(src, from, class) <= pos,
    decreases pos - from,
{
    if from < pos && class.holds(src[from]) {
        lemma_run_stops_at(src, from + 1, pos, class);
    }
}

/// A blank in place of an unexpected byte changes the end of no comment.
proof fn lemma_comment_end_blanked(src: Seq<u8>, pos: int, from: int, depth: nat)
    requires
        0 <= pos < src.len(),
        is_unexpected(src[pos]),
    ensures
        comment_end(blanked(src, pos), from, depth) == comment_end(src, from, depth),
    decreases src.len() - from,
{
    if depth > 0 && 0 <= from < src.len() {
        if opens_comment(src, from) {
            lemma_comment_end_blanked(src, pos, from + 2, depth + 1);
        } else if closes_comment(src, from) {
            lemma_comment_end_blanked(src, pos, from + 2, (depth - 1) as nat);
        } else {
            lemma_comment_end_blanked(src, pos, from + 1, depth);
        }
    }
}

/// A blank in place of an unexpected byte changes no line number.
proof fn lemma_line_blanked(src: Seq<u8>, pos: int, at: int)
    requires
        0 <= pos < src.len(),
        is_unexpected(src[pos]),
    ensures
        line_at(blanked(src, pos), at) == line_at(src, at),
    decreases at,
{
    if 0 < at <= src.len() {
        lemma_line_blanked(src, pos, at - 1);
    }
}

/// A blank in place of an unexpected byte changes no step but the one taken
/// at that byte, which yields nothing instead of an error.
proof fn lemma_step_blanked(src: Seq<u8>, pos: int, from: int)
    requires
        0 <= pos < src.len(),
        is_unexpected(src[pos]),
        0 <= from < src.len(),
    ensures
        from != pos ==> step(blanked(src, pos), from) == step(src, from),
        step(src, pos) == (Step {
            outcome: Outcome::Error(ScanError::UnexpectedCharacter(src[pos])),
            end: pos + 1,
        }),
        step(blanked(src, pos), pos) == (Step { outcome: Outcome::Skip, end: pos + 1 }),
{
    let other = blanked(src, pos);
    if from != pos {
        lemma_run_end_blanked(src, pos, from, ByteClass::Digit);
        let whole = run_end(src, from, ByteClass::Digit);
        lemma_run_end_blanked(src, pos, whole + 2, ByteClass::Digit);
        lemma_run_end_blanked(src, pos, from, ByteClass::Word);
        lemma_run_end_blanked(src, pos, from + 1, ByteClass::InString);
        lemma_run_end_blanked(src, pos, from + 2, ByteClass::InLine);
        lemma_comment_end_blanked(src, pos, from + 2, 1);
        let end = run_end(src, from, ByteClass::Word);
        lemma_run_end_bounds(src, from, ByteClass::Word);
        if from < pos {
            lemma_run_stops_at(src, from, pos, ByteClass::Word);
        }
        assert(other.subrange(from, end) =~= src.subrange(from, end));
    }
}

/// A scan takes steps only at or behind the place where it starts.
proof fn lemma_steps_at_bounds(src: Seq<u8>, from: int, pos: int)
    requires
        steps_at(src, from, pos),
    ensures
        from <= pos < src.len(),
    decreases src.len() - from,
{
    if from != pos {
        lemma_step_advances(src, from);
        lemma_steps_at_bounds(src, step(src, from).end, pos);
    }
}

/// Behind an unexpected byte the scan is the same with a blank in the byte's
/// place.
proof fn lemma_lex_behind_blanked(src: Seq<u8>, pos: int, from: int)
    requires
        0 <= pos < src.len(),
        is_unexpected(src[pos]),
        pos < from <= src.len(),
    ensures
        lex_from(blanked(src, pos), from) == lex_from(src, from),
    decreases src.len() - from,
{
    if from < src.len() {
        lemma_step_blanked(src, pos, from);
        lemma_step_advances(src, from);
        lemma_lex_behind_blanked(src, pos, step(src, from).end);
    }
}

/// Up to an unexpected byte at which it takes a step, the scan yields the
/// same spans with a blank in the byte's place, none of them across the
/// byte, and one error more.
proof fn lemma_lex_up_to_blanked(src: Seq<u8>, pos: int, from: int)
    requires
        0 <= pos < src.len(),
        is_unexpected(src[pos]),
        0 <= from,
        steps_at(src, from, pos),
    ensures
        lex_from(blanked(src, pos), from).spans == lex_from(src, from).spans,
        forall|i: int|
            0 <= i < lex_from(src, from).spans.len() ==> (#[trigger] lex_from(
                src,
                from,
            ).spans[i]).end <= pos || pos < lex_from(src, from).spans[i].start,
        has_one_more(
            lex_from(src, from).errors,
            lex_from(blanked(src, pos), from).errors,
            ScanError::UnexpectedCharacter(src[pos]),
        ),
    decreases src.len() - from,
{
    let other = blanked(src, pos);
    let error = ScanError::UnexpectedCharacter(src[pos]);
    let here = lex_from(src, from);
    let there = lex_from(other, from);
    lemma_step_blanked(src, pos, from);
    lemma_step_advances(src, from);
    let next = step(src, from).end;
    let rest = lex_from(src, next);
    if from == pos {
        lemma_lex_behind_blanked(src, pos, pos + 1);
        lemma_lex_from_spans(src, pos + 1);
        assert(is_inserted_at(here.errors, there.errors, error, 0)) by {
            assert(here.errors =~= there.errors.insert(0, error));
        }
    } else {
        lemma_steps_at_bounds(src, next, pos);
        lemma_lex_up_to_blanked(src, pos, next);
        let rest_there = lex_from(other, next);
        let k = choose|k: int| is_inserted_at(rest.errors, rest_there.errors, error, k);
        match step(src, from).outcome {
            Outcome::Token(kind) => {
                assert(forall|i: int| 0 < i < here.spans.len() ==> here.spans[i] == rest.spans[i
                    - 1]);
                assert(is_inserted_at(here.errors, there.errors, error, k));
            },
            Outcome::Skip => {
                assert(is_inserted_at(here.errors, there.errors, error, k));
            },
            Outcome::Error(earlier) => {
                assert(is_inserted_at(here.errors, there.errors, error, k + 1)) by {
                    assert(here.errors =~= there.errors.insert(k + 1, error));
                }
            },
        }
    }
}

/// Where the scan meets a byte that starts no token, it yields one error
/// for it and nothing else: the tokens are those that it yields with a
/// blank in the byte's place, and so are the other errors, in their order.
pub proof fn lemma_unexpected_byte_costs_one_error(src: Seq<u8>, pos: int)
    requires
        0 <= pos < src.len(),
        is_unexpected(src[pos]),
        steps_at(src, 0, pos),
    ensures
        tokens_of(src, lex(src)) == tokens_of(blanked(src, pos), lex(blanked(src, pos))),
        has_one_more(
            lex(src).errors,
            lex(blanked(src, pos)).errors,
            ScanError::UnexpectedCharacter(src[pos]),
        ),
{
    let other = blanked(src, pos);
    lemma_lex_up_to_blanked(src, pos, 0);
    lemma_lex_from_spans(src, 0);
    lemma_lex_from_steps(src, 0);
    let spans = lex(src).spans;
    assert forall|i: int| 0 <= i < spans.len() implies token_at(src, spans[i]) == token_at(
        other,
        spans[i],
    ) by {
        let span = spans[i];
        lemma_line_blanked(src, pos, span.start);
        assert(other.subrange(span.start, span.end) =~= src.subrange(span.start, span.end));
        if i < spans.len() - 1 {
            lemma_token_holds_its_delimiters(src, span);
            if span.kind == TokenType::String {
                assert(other.subrange(span.start + 1, span.end - 1) =~= src.subrange(
                    span.start + 1,
                    span.end - 1,
                ));
            } else if span.kind == TokenType::SingleLineComment {
                assert(other.subrange(span.start + 2, span.end) =~= src.subrange(
                    span.start + 2,
                    span.end,
                ));
            } else if span.kind == TokenType::MultiLineComment {
                assert(other.subrange(span.start + 2, span.end - 2) =~= src.subrange(
                    span.start + 2,
                    span.end - 2,
                ));
            }
        }
    }
    assert(tokens_of(src, lex(src)) =~= tokens_of(other, lex(other)));
}

} // verus!
