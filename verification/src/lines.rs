//! How the line number of a token follows from the newlines before it.

use crate::bytes::{lemma_run_end, run_end, ByteClass, NEWLINE};
use crate::lexeme::{lemma_lexeme_end, lexeme_at};
use crate::scanner::{token_stream, tokens_from};
use crate::token::C1Token;
use vstd::prelude::*;

verus! {

/// The number of newlines among the bytes of `s` from `from` up to `to`.
pub open spec fn newlines(s: Seq<u8>, from: int, to: int) -> int
    decreases to - from,
{
    if 0 <= from < to <= s.len() {
        newlines(s, from, to - 1) + if s[to - 1] == NEWLINE {
            1int
        } else {
            0int
        }
    } else {
        0
    }
}

/// The number of newlines that lie inside lexemes of category `kind`, among
/// the lexemes that follow one another from `pos` up to `to`.
pub open spec fn newlines_within(s: Seq<u8>, pos: int, to: int, kind: C1Token) -> int
    decreases s.len() - pos,
{
    if 0 <= pos < to <= s.len() {
        let lx = lexeme_at(s, pos);
        if lx.end <= pos || lx.end > to {
            0
        } else {
            newlines_within(s, lx.end, to, kind) + if lx.kind == kind {
                newlines(s, pos, lx.end)
            } else {
                0int
            }
        }
    } else {
        0
    }
}

/// The newlines of two adjoining stretches add up.
pub proof fn lemma_newlines_add(s: Seq<u8>, a: int, b: int, c: int)
    requires
        0 <= a <= b <= c <= s.len(),
    ensures
        newlines(s, a, c) == newlines(s, a, b) + newlines(s, b, c),
    decreases c - b,
{
    if b < c {
        lemma_newlines_add(s, a, b, c - 1);
    }
}

/// A stretch without a newline counts none.
pub proof fn lemma_newlines_none(s: Seq<u8>, a: int, b: int)
    requires
        0 <= a <= b <= s.len(),
        forall|k: int| a <= k < b ==> s[k] != NEWLINE,
    ensures
        newlines(s, a, b) == 0,
    decreases b - a,
{
    if a < b {
        lemma_newlines_none(s, a, b - 1);
    }
}

/// Only a line break and a block comment hold a newline.
pub proof fn lemma_newline_free(s: Seq<u8>, i: int)
    requires
        0 <= i < s.len(),
        lexeme_at(s, i).kind != C1Token::Linebreak,
        lexeme_at(s, i).kind != C1Token::CComment,
    ensures
        forall|k: int| i <= k < lexeme_at(s, i).end ==> s[k] != NEWLINE,
{
    lemma_lexeme_end(s, i);
    lemma_run_end(s, i, ByteClass::Alnum);
    lemma_run_end(s, i, ByteClass::Blank);
    lemma_run_end(s, i + 1, ByteClass::Continuation);
    lemma_run_end(s, i + 1, ByteClass::StringBody);
    if i + 2 <= s.len() {
        lemma_run_end(s, i + 2, ByteClass::LineBody);
    }
    let d = run_end(s, i, ByteClass::Digit);
    lemma_run_end(s, i, ByteClass::Digit);
    if d + 1 <= s.len() {
        lemma_run_end(s, d + 1, ByteClass::Digit);
    }
    if d + 2 <= s.len() {
        lemma_run_end(s, d + 2, ByteClass::Digit);
    }
    if i + 1 <= s.len() {
        let f = run_end(s, i + 1, ByteClass::Digit);
        lemma_run_end(s, i + 1, ByteClass::Digit);
        if f + 1 <= s.len() {
            lemma_run_end(s, f + 1, ByteClass::Digit);
        }
        if f + 2 <= s.len() {
            lemma_run_end(s, f + 2, ByteClass::Digit);
        }
    }
}

/// The line number of a token is the line number at the position where the
/// walk began, plus one for each newline between that position and the token,
/// but for the newlines that lie inside a block comment.
pub proof fn lemma_line_numbers_from(s: Seq<u8>, pos: int, line: int, j: int)
    requires
        0 <= pos <= s.len(),
        0 <= j < tokens_from(s, pos, line).len(),
    ensures
        ({
            let t = tokens_from(s, pos, line)[j];
            &&& pos <= t.start < s.len()
            &&& t.line == line + newlines(s, pos, t.start) - newlines_within(
                s,
                pos,
                t.start,
                C1Token::CComment,
            )
        }),
    decreases s.len() - pos,
{
    let lx = lexeme_at(s, pos);
    let e = lx.end;
    lemma_lexeme_end(s, pos);
    if lx.kind == C1Token::Linebreak {
        lemma_line_numbers_from(s, e, line + 1, j);
        let t = tokens_from(s, e, line + 1)[j];
        lemma_newlines_add(s, pos, e, t.start);
        assert(newlines(s, pos, e) == 1) by {
            reveal_with_fuel(newlines, 2);
        }
    } else if lx.kind.is_trivia() {
        lemma_line_numbers_from(s, e, line, j);
        let t = tokens_from(s, e, line)[j];
        lemma_newlines_add(s, pos, e, t.start);
        if lx.kind != C1Token::CComment {
            lemma_newline_free(s, pos);
            lemma_newlines_none(s, pos, e);
        }
    } else if j > 0 {
        let rest = tokens_from(s, e, line);
        assert(tokens_from(s, pos, line)[j] == rest[j - 1]);
        lemma_line_numbers_from(s, e, line, j - 1);
        let t = rest[j - 1];
        lemma_newlines_add(s, pos, e, t.start);
        lemma_newline_free(s, pos);
        lemma_newlines_none(s, pos, e);
    }
}

/// Every newline before a token adds one to its line number, but for the
/// newlines that lie inside a block comment.
pub proof fn lemma_line_numbers(s: Seq<u8>, j: int)
    requires
        0 <= j < token_stream(s).len(),
    ensures
        ({
            let t = token_stream(s)[j];
            t.line == 1 + newlines(s, 0, t.start) - newlines_within(
                s,
                0,
                t.start,
                C1Token::CComment,
            )
        }),
{
    lemma_line_numbers_from(s, 0, 1, j);
}

} // verus!
