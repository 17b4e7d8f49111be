//! The tokens before a refused token can always be continued to a program:
//! the grammar engine refuses no token earlier than it must.

use crate::frame::{
    frame_assignment, frame_block, frame_factor, frame_function_definition, frame_simpexpr,
    frame_statement_list, frame_term, same_tokens,
};
use crate::grammar::{
    cuts, is_assignment, is_block, is_expr, is_factor, is_function_call, is_function_definition,
    is_if_statement, is_program, is_program_part, is_simpexpr, is_simpexpr_rest, is_statement,
    is_statement_list, is_sum, is_term, is_term_rest,
};
use crate::recognizer::{
    assignment, block, exists_at, expr, factor, function_call, function_definition, function_head,
    if_statement, is_at, lemma_progress, printf, program, progress_assignment, progress_block,
    progress_statement_list, return_statement, simpexpr, simpexpr_tail, stat_assignment, statement,
    statement_list, sum, term, term_tail, then_expect, Outcome,
};
use crate::soundness::{
    sound_assignment, sound_block, sound_factor, sound_function_definition, sound_simpexpr,
    sound_statement_list, sound_term,
};
use crate::token::C1Token;
use vstd::prelude::*;

verus! {

/// The tokens that are still to come where `factor` refused a token: those
/// that close the factor that has been begun, or an identifier where none has.
pub open spec fn rest_factor(ks: Seq<C1Token>, i: int) -> Seq<C1Token>
    decreases ks.len() - i, 1int,
{
    if is_at(ks, i, C1Token::Identifier) {
        seq![C1Token::RightParenthesis]
    } else if is_at(ks, i, C1Token::LeftParenthesis) {
        match assignment(ks, i + 1) {
            Outcome::Rejected { .. } => rest_assignment(ks, i + 1) + seq![
                C1Token::RightParenthesis,
            ],
            Outcome::Accepted { .. } => seq![C1Token::RightParenthesis],
        }
    } else {
        seq![C1Token::Identifier]
    }
}

/// Where the assignment that starts at `i` ends once the tokens that are still
/// to come have come.
pub open spec fn assignment_end(ks: Seq<C1Token>, i: int) -> int {
    match assignment(ks, i) {
        Outcome::Rejected { reason, at } => at + rest_assignment(ks, i).len(),
        Outcome::Accepted { next } => next,
    }
}

/// The tokens that are still to come where `term_tail` refused a token.
pub open spec fn rest_term_tail(ks: Seq<C1Token>, i: int) -> Seq<C1Token>
    decreases ks.len() - i, 2int,
{
    if exists_at(ks, i) && ks[i].is_multiplicative() {
        match factor(ks, i + 1) {
            Outcome::Rejected { .. } => rest_factor(ks, i + 1),
            Outcome::Accepted { next } => if i < next <= ks.len() {
                rest_term_tail(ks, next)
            } else {
                Seq::empty()
            },
        }
    } else {
        Seq::empty()
    }
}

/// The tokens that are still to come where `term` refused a token.
pub open spec fn rest_term(ks: Seq<C1Token>, i: int) -> Seq<C1Token>
    decreases ks.len() - i, 3int,
{
    match factor(ks, i) {
        Outcome::Rejected { .. } => rest_factor(ks, i),
        Outcome::Accepted { next } => if i <= next <= ks.len() {
            rest_term_tail(ks, next)
        } else {
            Seq::empty()
        },
    }
}

/// The tokens that are still to come where `simpexpr_tail` refused a token.
pub open spec fn rest_simpexpr_tail(ks: Seq<C1Token>, i: int) -> Seq<C1Token>
    decreases ks.len() - i, 4int,
{
    if exists_at(ks, i) && ks[i].is_additive() {
        match term(ks, i + 1) {
            Outcome::Rejected { .. } => rest_term(ks, i + 1),
            Outcome::Accepted { next } => if i < next <= ks.len() {
                rest_simpexpr_tail(ks, next)
            } else {
                Seq::empty()
            },
        }
    } else {
        Seq::empty()
    }
}

/// The tokens that are still to come where `sum` refused a token.
pub open spec fn rest_sum(ks: Seq<C1Token>, i: int) -> Seq<C1Token>
    decreases ks.len() - i, 5int,
{
    match term(ks, i) {
        Outcome::Rejected { .. } => rest_term(ks, i),
        Outcome::Accepted { next } => if i <= next <= ks.len() {
            rest_simpexpr_tail(ks, next)
        } else {
            Seq::empty()
        },
    }
}

/// The tokens that are still to come where `simpexpr` refused a token.
pub open spec fn rest_simpexpr(ks: Seq<C1Token>, i: int) -> Seq<C1Token>
    decreases ks.len() - i, 6int,
{
    if is_at(ks, i, C1Token::Minus) {
        rest_sum(ks, i + 1)
    } else {
        rest_sum(ks, i)
    }
}

/// The tokens that are still to come where `expr` refused a token.
pub open spec fn rest_expr(ks: Seq<C1Token>, i: int) -> Seq<C1Token>
    decreases ks.len() - i, 7int,
{
    match simpexpr(ks, i) {
        Outcome::Rejected { .. } => rest_simpexpr(ks, i),
        Outcome::Accepted { next } => if i <= next && exists_at(ks, next)
            && ks[next].is_relational() {
            rest_simpexpr(ks, next + 1)
        } else {
            Seq::empty()
        },
    }
}

/// The tokens that are still to come where `assignment` refused a token.
pub open spec fn rest_assignment(ks: Seq<C1Token>, i: int) -> Seq<C1Token>
    decreases ks.len() - i, 8int,
{
    if is_at(ks, i, C1Token::Identifier) && is_at(ks, i + 1, C1Token::Assign) {
        rest_assignment(ks, i + 2)
    } else {
        rest_expr(ks, i)
    }
}

/// The tokens that are still to come where `if_statement` refused a token.
pub open spec fn rest_if_statement(ks: Seq<C1Token>, i: int) -> Seq<C1Token>
    decreases ks.len() - i, 9int,
{
    if !is_at(ks, i, C1Token::KwIf) {
        seq![
            C1Token::KwIf,
            C1Token::LeftParenthesis,
            C1Token::Identifier,
            C1Token::RightParenthesis,
            C1Token::LeftBrace,
            C1Token::RightBrace,
        ]
    } else if !is_at(ks, i + 1, C1Token::LeftParenthesis) {
        seq![
            C1Token::LeftParenthesis,
            C1Token::Identifier,
            C1Token::RightParenthesis,
            C1Token::LeftBrace,
            C1Token::RightBrace,
        ]
    } else if assignment(ks, i + 2) is Accepted && is_at(
        ks,
        assignment(ks, i + 2)->next,
        C1Token::RightParenthesis,
    ) {
        let body = assignment(ks, i + 2)->next + 1;
        if i < body <= ks.len() {
            rest_block(ks, body)
        } else {
            Seq::empty()
        }
    } else {
        match assignment(ks, i + 2) {
            Outcome::Rejected { .. } => rest_assignment(ks, i + 2) + seq![
                C1Token::RightParenthesis,
                C1Token::LeftBrace,
                C1Token::RightBrace,
            ],
            Outcome::Accepted { .. } => seq![
                C1Token::RightParenthesis,
                C1Token::LeftBrace,
                C1Token::RightBrace,
            ],
        }
    }
}

/// The tokens that are still to come where the assignment that starts at
/// `i` is cut short or lacks the tokens of `closing` after it.
pub open spec fn rest_assignment_then(
    ks: Seq<C1Token>,
    i: int,
    closing: Seq<C1Token>,
) -> Seq<C1Token> {
    match assignment(ks, i) {
        Outcome::Rejected { .. } => rest_assignment(ks, i) + closing,
        Outcome::Accepted { .. } => closing,
    }
}

/// The tokens that are still to come where a statement that starts with
/// `return` is cut short.
pub open spec fn rest_return_statement(ks: Seq<C1Token>, i: int) -> Seq<C1Token> {
    if !exists_at(ks, i + 1) || ks[i + 1] == C1Token::Semicolon {
        seq![C1Token::Semicolon]
    } else {
        rest_assignment_then(ks, i + 1, seq![C1Token::Semicolon])
    }
}

/// The tokens that are still to come where a statement that starts with
/// `printf` is cut short.
pub open spec fn rest_printf_statement(ks: Seq<C1Token>, i: int) -> Seq<C1Token> {
    if !is_at(ks, i + 1, C1Token::LeftParenthesis) {
        seq![
            C1Token::LeftParenthesis,
            C1Token::Identifier,
            C1Token::RightParenthesis,
            C1Token::Semicolon,
        ]
    } else if assignment(ks, i + 2) is Accepted && is_at(
        ks,
        assignment(ks, i + 2)->next,
        C1Token::RightParenthesis,
    ) {
        seq![C1Token::Semicolon]
    } else {
        rest_assignment_then(ks, i + 2, seq![C1Token::RightParenthesis, C1Token::Semicolon])
    }
}

/// The tokens that are still to come where a statement that starts with an
/// identifier is cut short.
pub open spec fn rest_identifier_statement(ks: Seq<C1Token>, i: int) -> Seq<C1Token> {
    if is_at(ks, i + 1, C1Token::Assign) {
        rest_assignment_then(ks, i + 2, seq![C1Token::Semicolon])
    } else if !is_at(ks, i + 1, C1Token::LeftParenthesis) {
        seq![C1Token::LeftParenthesis, C1Token::RightParenthesis, C1Token::Semicolon]
    } else if !is_at(ks, i + 2, C1Token::RightParenthesis) {
        seq![C1Token::RightParenthesis, C1Token::Semicolon]
    } else {
        seq![C1Token::Semicolon]
    }
}

/// The tokens that are still to come where `statement` refused a token.
pub open spec fn rest_statement(ks: Seq<C1Token>, i: int) -> Seq<C1Token>
    decreases ks.len() - i, 10int,
{
    if is_at(ks, i, C1Token::KwIf) {
        rest_if_statement(ks, i)
    } else if is_at(ks, i, C1Token::KwReturn) {
        rest_return_statement(ks, i)
    } else if is_at(ks, i, C1Token::KwPrintf) {
        rest_printf_statement(ks, i)
    } else if is_at(ks, i, C1Token::Identifier) {
        rest_identifier_statement(ks, i)
    } else {
        seq![C1Token::KwReturn, C1Token::Semicolon]
    }
}

/// The tokens that are still to come where `block` refused a token.
pub open spec fn rest_block(ks: Seq<C1Token>, i: int) -> Seq<C1Token>
    decreases ks.len() - i, 11int,
{
    if is_at(ks, i, C1Token::LeftBrace) {
        match statement_list(ks, i + 1) {
            Outcome::Rejected { .. } => rest_statement_list(ks, i + 1) + seq![
                C1Token::RightBrace,
            ],
            Outcome::Accepted { .. } => seq![C1Token::RightBrace],
        }
    } else {
        rest_statement(ks, i)
    }
}

/// The tokens that are still to come where `statement_list` refused a token.
pub open spec fn rest_statement_list(ks: Seq<C1Token>, i: int) -> Seq<C1Token>
    decreases ks.len() - i, 12int,
{
    if !exists_at(ks, i) || ks[i] == C1Token::RightBrace {
        Seq::empty()
    } else {
        match block(ks, i) {
            Outcome::Rejected { .. } => rest_block(ks, i),
            Outcome::Accepted { next } => if i < next <= ks.len() {
                rest_statement_list(ks, next)
            } else {
                Seq::empty()
            },
        }
    }
}

/// The tokens that are still to come where `function_definition` refused a token.
pub open spec fn rest_function_definition(ks: Seq<C1Token>, i: int) -> Seq<C1Token> {
    if !(exists_at(ks, i) && ks[i].is_return_type()) {
        seq![
            C1Token::KwVoid,
            C1Token::Identifier,
            C1Token::LeftParenthesis,
            C1Token::RightParenthesis,
            C1Token::LeftBrace,
            C1Token::RightBrace,
        ]
    } else if !is_at(ks, i + 1, C1Token::Identifier) {
        seq![
            C1Token::Identifier,
            C1Token::LeftParenthesis,
            C1Token::RightParenthesis,
            C1Token::LeftBrace,
            C1Token::RightBrace,
        ]
    } else if !is_at(ks, i + 2, C1Token::LeftParenthesis) {
        seq![
            C1Token::LeftParenthesis,
            C1Token::RightParenthesis,
            C1Token::LeftBrace,
            C1Token::RightBrace,
        ]
    } else if !is_at(ks, i + 3, C1Token::RightParenthesis) {
        seq![C1Token::RightParenthesis, C1Token::LeftBrace, C1Token::RightBrace]
    } else if !is_at(ks, i + 4, C1Token::LeftBrace) {
        seq![C1Token::LeftBrace, C1Token::RightBrace]
    } else {
        match statement_list(ks, i + 5) {
            Outcome::Rejected { .. } => rest_statement_list(ks, i + 5) + seq![
                C1Token::RightBrace,
            ],
            Outcome::Accepted { .. } => seq![C1Token::RightBrace],
        }
    }
}

/// The tokens that are still to come where `program` refused a token: none
/// where the refused token is the first one after a function definition,
/// since a program may end there.
pub open spec fn rest_program(ks: Seq<C1Token>, i: int) -> Seq<C1Token>
    decreases ks.len() - i,
{
    if !exists_at(ks, i) {
        Seq::empty()
    } else {
        match function_definition(ks, i) {
            Outcome::Rejected { reason, at } => if at == i {
                Seq::empty()
            } else {
                rest_function_definition(ks, i)
            },
            Outcome::Accepted { next } => if i < next <= ks.len() {
                rest_program(ks, next)
            } else {
                Seq::empty()
            },
        }
    }
}

/// The sequence `b` holds the tokens of `ks` below index `at`, and after
/// them the tokens of `u`.
pub open spec fn continues(ks: Seq<C1Token>, b: Seq<C1Token>, at: int, u: Seq<C1Token>) -> bool {
    &&& 0 <= at <= ks.len()
    &&& at + u.len() <= b.len()
    &&& forall|k: int| 0 <= k < at ==> #[trigger] b[k] == ks[k]
    &&& forall|k: int| 0 <= k < u.len() ==> b[at + k] == #[trigger] u[k]
}

/// What continues with `u + v` continues with `u`, and then holds the tokens of `v`.
proof fn lemma_continues_split(
    ks: Seq<C1Token>,
    b: Seq<C1Token>,
    at: int,
    u: Seq<C1Token>,
    v: Seq<C1Token>,
)
    requires
        continues(ks, b, at, u + v),
    ensures
        continues(ks, b, at, u),
        at + u.len() + v.len() <= b.len(),
        forall|k: int| 0 <= k < v.len() ==> b[at + u.len() + k] == #[trigger] v[k],
{
    let w = u + v;
    assert forall|k: int| 0 <= k < u.len() implies b[at + k] == #[trigger] u[k] by {
        assert(w[k] == u[k]);
    }
    assert forall|k: int| 0 <= k < v.len() implies b[at + u.len() + k] == #[trigger] v[k] by {
        assert(w[u.len() + k] == v[k]);
    }
}

/// The index of the token that the routine refused.
pub open spec fn refused_at(o: Outcome) -> int {
    o->at
}

/// No phrase of an expression is empty.
proof fn lemma_not_empty(b: Seq<C1Token>, i: int, j: int)
    ensures
        is_factor(b, i, j) ==> i < j,
        is_term(b, i, j) ==> i < j,
        is_sum(b, i, j) ==> i < j,
        is_simpexpr(b, i, j) ==> i < j,
        is_expr(b, i, j) ==> i < j,
        is_assignment(b, i, j) ==> i < j,
{
    if is_term(b, i, j) {
        let m = choose|m: int|
            #[trigger] cuts(i, m, j) && is_factor(b, i, m) && is_term_rest(b, m, j);
    }
    if is_sum(b, i, j) {
        let m = choose|m: int|
            #[trigger] cuts(i, m, j) && is_term(b, i, m) && is_simpexpr_rest(b, m, j);
    }
    if is_sum(b, i + 1, j) {
        let m = choose|m: int|
            #[trigger] cuts(i + 1, m, j) && is_term(b, i + 1, m) && is_simpexpr_rest(b, m, j);
    }
    if is_expr(b, i, j) && !is_simpexpr(b, i, j) {
        let m = choose|m: int|
            #[trigger] cuts(i, m, j - 2) && is_simpexpr(b, i, m) && exists_at(b, m)
                && b[m].is_relational() && is_simpexpr(b, m + 1, j);
    }
}

/// A factor alone is a term, a sum, a simple expression, an expression and
/// an assignment.
proof fn lemma_factor_alone(b: Seq<C1Token>, i: int, j: int)
    requires
        is_factor(b, i, j),
    ensures
        is_term(b, i, j),
        is_sum(b, i, j),
        is_assignment(b, i, j),
{
    lemma_not_empty(b, i, j);
    assert(cuts(i, j, j));
    assert(is_term_rest(b, j, j));
    assert(is_term(b, i, j));
    assert(is_simpexpr_rest(b, j, j));
    assert(is_sum(b, i, j));
    assert(is_simpexpr(b, i, j));
    assert(is_expr(b, i, j));
}

/// `{` and `}` are a block.
proof fn lemma_empty_block(b: Seq<C1Token>, i: int)
    requires
        is_at(b, i, C1Token::LeftBrace),
        is_at(b, i + 1, C1Token::RightBrace),
    ensures
        is_block(b, i, i + 2),
{
    assert(is_statement_list(b, i + 1, i + 1));
}

/// Where `factor` refused a token, the tokens before it and the tokens
/// still to come are a factor.
proof fn viable_factor(ks: Seq<C1Token>, b: Seq<C1Token>, i: int)
    requires
        0 <= i <= ks.len(),
        factor(ks, i) is Rejected,
        continues(ks, b, refused_at(factor(ks, i)), rest_factor(ks, i)),
    ensures
        is_factor(b, i, refused_at(factor(ks, i)) + rest_factor(ks, i).len()),
    decreases ks.len() - i, 1int,
{
    let at = refused_at(factor(ks, i));
    let u = rest_factor(ks, i);
    lemma_progress(ks, i);
    if is_at(ks, i, C1Token::Identifier) {
        assert(u[0] == C1Token::RightParenthesis);
        assert(b[i] == ks[i] && b[i + 1] == ks[i + 1]);
        assert(is_function_call(b, i, i + 3));
    } else if is_at(ks, i, C1Token::LeftParenthesis) {
        lemma_progress(ks, i + 1);
        assert(u == rest_assignment_then(ks, i + 1, seq![C1Token::RightParenthesis]));
        viable_assignment_then(ks, b, i + 1, at, seq![C1Token::RightParenthesis]);
        let e = assignment_end(ks, i + 1);
        assert(seq![C1Token::RightParenthesis][0] == C1Token::RightParenthesis);
        assert(b[i] == ks[i]);
        lemma_not_empty(b, i + 1, e);
    } else {
        assert(u[0] == C1Token::Identifier);
    }
}

/// Where `term_tail` refused a token, the tokens before it and the tokens
/// still to come are a rest of a term.
proof fn viable_term_tail(ks: Seq<C1Token>, b: Seq<C1Token>, i: int)
    requires
        0 <= i <= ks.len(),
        term_tail(ks, i) is Rejected,
        continues(ks, b, refused_at(term_tail(ks, i)), rest_term_tail(ks, i)),
    ensures
        is_term_rest(b, i, refused_at(term_tail(ks, i)) + rest_term_tail(ks, i).len()),
    decreases ks.len() - i, 2int,
{
    let at = refused_at(term_tail(ks, i));
    let e = at + rest_term_tail(ks, i).len();
    lemma_progress(ks, i);
    lemma_progress(ks, i + 1);
    assert(b[i] == ks[i]);
    match factor(ks, i + 1) {
        Outcome::Rejected { .. } => {
            viable_factor(ks, b, i + 1);
            lemma_not_empty(b, i + 1, e);
            assert(is_term_rest(b, e, e));
            assert(cuts(i + 1, e, e));
        },
        Outcome::Accepted { next } => {
            lemma_progress(ks, next);
            sound_factor(ks, i + 1, next);
            frame_factor(ks, b, i + 1, next);
            viable_term_tail(ks, b, next);
            assert(cuts(i + 1, next, e));
        },
    }
}

/// Where `term` refused a token, the tokens before it and the tokens
/// still to come are a term.
proof fn viable_term(ks: Seq<C1Token>, b: Seq<C1Token>, i: int)
    requires
        0 <= i <= ks.len(),
        term(ks, i) is Rejected,
        continues(ks, b, refused_at(term(ks, i)), rest_term(ks, i)),
    ensures
        is_term(b, i, refused_at(term(ks, i)) + rest_term(ks, i).len()),
    decreases ks.len() - i, 3int,
{
    let at = refused_at(term(ks, i));
    let e = at + rest_term(ks, i).len();
    lemma_progress(ks, i);
    match factor(ks, i) {
        Outcome::Rejected { .. } => {
            viable_factor(ks, b, i);
            lemma_factor_alone(b, i, e);
        },
        Outcome::Accepted { next } => {
            lemma_progress(ks, next);
            sound_factor(ks, i, next);
            frame_factor(ks, b, i, next);
            viable_term_tail(ks, b, next);
            assert(cuts(i, next, e));
        },
    }
}

/// Where `simpexpr_tail` refused a token, the tokens before it and the tokens
/// still to come are a rest of a simple expression.
proof fn viable_simpexpr_tail(ks: Seq<C1Token>, b: Seq<C1Token>, i: int)
    requires
        0 <= i <= ks.len(),
        simpexpr_tail(ks, i) is Rejected,
        continues(ks, b, refused_at(simpexpr_tail(ks, i)), rest_simpexpr_tail(ks, i)),
    ensures
        is_simpexpr_rest(
            b,
            i,
            refused_at(simpexpr_tail(ks, i)) + rest_simpexpr_tail(ks, i).len(),
        ),
    decreases ks.len() - i, 4int,
{
    let at = refused_at(simpexpr_tail(ks, i));
    let e = at + rest_simpexpr_tail(ks, i).len();
    lemma_progress(ks, i);
    lemma_progress(ks, i + 1);
    assert(b[i] == ks[i]);
    match term(ks, i + 1) {
        Outcome::Rejected { .. } => {
            viable_term(ks, b, i + 1);
            lemma_not_empty(b, i + 1, e);
            assert(is_simpexpr_rest(b, e, e));
            assert(cuts(i + 1, e, e));
        },
        Outcome::Accepted { next } => {
            lemma_progress(ks, next);
            sound_term(ks, i + 1, next);
            frame_term(ks, b, i + 1, next);
            viable_simpexpr_tail(ks, b, next);
            assert(cuts(i + 1, next, e));
        },
    }
}

/// Where `sum` refused a token, the tokens before it and the tokens
/// still to come are a sum of terms.
proof fn viable_sum(ks: Seq<C1Token>, b: Seq<C1Token>, i: int)
    requires
        0 <= i <= ks.len(),
        sum(ks, i) is Rejected,
        continues(ks, b, refused_at(sum(ks, i)), rest_sum(ks, i)),
    ensures
        is_sum(b, i, refused_at(sum(ks, i)) + rest_sum(ks, i).len()),
    decreases ks.len() - i, 5int,
{
    let at = refused_at(sum(ks, i));
    let e = at + rest_sum(ks, i).len();
    lemma_progress(ks, i);
    match term(ks, i) {
        Outcome::Rejected { .. } => {
            viable_term(ks, b, i);
            lemma_not_empty(b, i, e);
            assert(is_simpexpr_rest(b, e, e));
            assert(cuts(i, e, e));
        },
        Outcome::Accepted { next } => {
            lemma_progress(ks, next);
            sound_term(ks, i, next);
            frame_term(ks, b, i, next);
            viable_simpexpr_tail(ks, b, next);
            assert(cuts(i, next, e));
        },
    }
}

/// Where `simpexpr` refused a token, the tokens before it and the tokens
/// still to come are a simple expression.
proof fn viable_simpexpr(ks: Seq<C1Token>, b: Seq<C1Token>, i: int)
    requires
        0 <= i <= ks.len(),
        simpexpr(ks, i) is Rejected,
        continues(ks, b, refused_at(simpexpr(ks, i)), rest_simpexpr(ks, i)),
    ensures
        is_simpexpr(b, i, refused_at(simpexpr(ks, i)) + rest_simpexpr(ks, i).len()),
    decreases ks.len() - i, 6int,
{
    let e = refused_at(simpexpr(ks, i)) + rest_simpexpr(ks, i).len();
    if is_at(ks, i, C1Token::Minus) {
        lemma_progress(ks, i + 1);
        viable_sum(ks, b, i + 1);
        lemma_not_empty(b, i + 1, e);
        assert(b[i] == ks[i]);
    } else {
        viable_sum(ks, b, i);
    }
}

/// Where `expr` refused a token, the tokens before it and the tokens
/// still to come are an expression.
proof fn viable_expr(ks: Seq<C1Token>, b: Seq<C1Token>, i: int)
    requires
        0 <= i <= ks.len(),
        expr(ks, i) is Rejected,
        continues(ks, b, refused_at(expr(ks, i)), rest_expr(ks, i)),
    ensures
        is_expr(b, i, refused_at(expr(ks, i)) + rest_expr(ks, i).len()),
    decreases ks.len() - i, 7int,
{
    let e = refused_at(expr(ks, i)) + rest_expr(ks, i).len();
    lemma_progress(ks, i);
    match simpexpr(ks, i) {
        Outcome::Rejected { .. } => {
            viable_simpexpr(ks, b, i);
        },
        Outcome::Accepted { next } => {
            lemma_progress(ks, next + 1);
            sound_simpexpr(ks, i, next);
            frame_simpexpr(ks, b, i, next);
            viable_simpexpr(ks, b, next + 1);
            lemma_not_empty(b, next + 1, e);
            assert(b[next] == ks[next]);
            assert(cuts(i, next, e - 2));
        },
    }
}

/// Where `assignment` refused a token, the tokens before it and the tokens
/// still to come are an assignment.
proof fn viable_assignment(ks: Seq<C1Token>, b: Seq<C1Token>, i: int)
    requires
        0 <= i <= ks.len(),
        assignment(ks, i) is Rejected,
        continues(ks, b, refused_at(assignment(ks, i)), rest_assignment(ks, i)),
    ensures
        is_assignment(b, i, refused_at(assignment(ks, i)) + rest_assignment(ks, i).len()),
    decreases ks.len() - i, 8int,
{
    let e = refused_at(assignment(ks, i)) + rest_assignment(ks, i).len();
    if is_at(ks, i, C1Token::Identifier) && is_at(ks, i + 1, C1Token::Assign) {
        lemma_progress(ks, i + 2);
        viable_assignment(ks, b, i + 2);
        lemma_not_empty(b, i + 2, e);
        assert(b[i] == ks[i] && b[i + 1] == ks[i + 1]);
    } else {
        viable_expr(ks, b, i);
    }
}

/// Where the assignment that starts at `i` is cut short at `at`, or ends at
/// `at` and lacks the tokens of `closing`, it ends in `b` at `assignment_end`
/// and the tokens of `closing` follow it there.

proof fn viable_assignment_then(
    ks: Seq<C1Token>,
    b: Seq<C1Token>,
    i: int,
    at: int,
    closing: Seq<C1Token>,
)
    requires
        0 <= i <= ks.len(),
        match assignment(ks, i) {
            Outcome::Rejected { reason, at: refused } => at == refused,
            Outcome::Accepted { next } => at == next,
        },
        continues(ks, b, at, rest_assignment_then(ks, i, closing)),
    ensures
        is_assignment(b, i, assignment_end(ks, i)),
        at <= assignment_end(ks, i),
        assignment_end(ks, i) + closing.len() <= b.len(),
        forall|k: int|
            0 <= k < closing.len() ==> b[assignment_end(ks, i) + k] == #[trigger] closing[k],
    decreases ks.len() - i, 9int,
{
    lemma_progress(ks, i);
    match assignment(ks, i) {
        Outcome::Rejected { .. } => {
            lemma_continues_split(ks, b, at, rest_assignment(ks, i), closing);
            viable_assignment(ks, b, i);
        },
        Outcome::Accepted { next } => {
            sound_assignment(ks, i, next);
            frame_assignment(ks, b, i, next);
        },
    }
}

/// An identifier alone is an assignment.
proof fn lemma_identifier_alone(b: Seq<C1Token>, i: int)
    requires
        is_at(b, i, C1Token::Identifier),
    ensures
        is_assignment(b, i, i + 1),
{
    lemma_factor_alone(b, i, i + 1);
}

/// The tokens `if ( ID ) { }` are an if statement.
proof fn lemma_least_if_statement(b: Seq<C1Token>, i: int)
    requires
        is_at(b, i, C1Token::KwIf),
        is_at(b, i + 1, C1Token::LeftParenthesis),
        is_at(b, i + 2, C1Token::Identifier),
        is_at(b, i + 3, C1Token::RightParenthesis),
        is_at(b, i + 4, C1Token::LeftBrace),
        is_at(b, i + 5, C1Token::RightBrace),
    ensures
        is_if_statement(b, i, i + 6),
{
    lemma_identifier_alone(b, i + 2);
    lemma_empty_block(b, i + 4);
    lemma_build_if_statement(b, i, i + 3, i + 6);
}

/// An assignment in parentheses after `if`, and a block, are an if statement.
proof fn lemma_build_if_statement(b: Seq<C1Token>, i: int, m: int, j: int)
    requires
        is_at(b, i, C1Token::KwIf),
        is_at(b, i + 1, C1Token::LeftParenthesis),
        is_assignment(b, i + 2, m),
        is_at(b, m, C1Token::RightParenthesis),
        is_block(b, m + 1, j),
    ensures
        is_if_statement(b, i, j),
{
    lemma_not_empty(b, i + 2, m);
    lemma_block_not_empty(b, m + 1, j);
    assert(cuts(i + 2, m, j - 2));
}

/// Where `if_statement` refused the `if` or the `(`, the statement is the
/// least one: `if ( ID ) { }`.
proof fn viable_if_head(ks: Seq<C1Token>, b: Seq<C1Token>, i: int)
    requires
        0 <= i <= ks.len(),
        !is_at(ks, i, C1Token::KwIf) || !is_at(ks, i + 1, C1Token::LeftParenthesis),
        continues(ks, b, refused_at(if_statement(ks, i)), rest_if_statement(ks, i)),
    ensures
        is_if_statement(b, i, refused_at(if_statement(ks, i)) + rest_if_statement(ks, i).len()),
{
    let u = rest_if_statement(ks, i);
    if !is_at(ks, i, C1Token::KwIf) {
        assert(u[0] == C1Token::KwIf && u[1] == C1Token::LeftParenthesis && u[2]
            == C1Token::Identifier && u[3] == C1Token::RightParenthesis && u[4]
            == C1Token::LeftBrace && u[5] == C1Token::RightBrace);
        lemma_least_if_statement(b, i);
    } else {
        assert(u[0] == C1Token::LeftParenthesis && u[1] == C1Token::Identifier && u[2]
            == C1Token::RightParenthesis && u[3] == C1Token::LeftBrace && u[4]
            == C1Token::RightBrace);
        assert(b[i] == ks[i]);
        lemma_least_if_statement(b, i);
    }
}

/// Where `if_statement` refused a token of the condition or lacks the `)`
/// after it, the condition is completed and an empty block follows.
proof fn viable_if_condition(ks: Seq<C1Token>, b: Seq<C1Token>, i: int)
    requires
        0 <= i <= ks.len(),
        is_at(ks, i, C1Token::KwIf),
        is_at(ks, i + 1, C1Token::LeftParenthesis),
        !(assignment(ks, i + 2) is Accepted && is_at(
            ks,
            assignment(ks, i + 2)->next,
            C1Token::RightParenthesis,
        )),
        continues(ks, b, refused_at(if_statement(ks, i)), rest_if_statement(ks, i)),
    ensures
        is_if_statement(b, i, refused_at(if_statement(ks, i)) + rest_if_statement(ks, i).len()),
    decreases ks.len() - i, 10int,
{
    let at = refused_at(if_statement(ks, i));
    let closing = seq![C1Token::RightParenthesis, C1Token::LeftBrace, C1Token::RightBrace];
    progress_assignment(ks, i + 2);
    assert(rest_if_statement(ks, i) == rest_assignment_then(ks, i + 2, closing));
    viable_assignment_then(ks, b, i + 2, at, closing);
    let m = assignment_end(ks, i + 2);
    assert(closing[0] == C1Token::RightParenthesis && closing[1] == C1Token::LeftBrace
        && closing[2] == C1Token::RightBrace);
    assert(b[i] == ks[i] && b[i + 1] == ks[i + 1]);
    lemma_empty_block(b, m + 1);
    lemma_build_if_statement(b, i, m, m + 3);
}

/// Where `if_statement` refused a token of the body, the body is completed.
proof fn viable_if_body(ks: Seq<C1Token>, b: Seq<C1Token>, i: int)
    requires
        0 <= i <= ks.len(),
        is_at(ks, i, C1Token::KwIf),
        is_at(ks, i + 1, C1Token::LeftParenthesis),
        assignment(ks, i + 2) is Accepted,
        is_at(ks, assignment(ks, i + 2)->next, C1Token::RightParenthesis),
        if_statement(ks, i) is Rejected,
        continues(ks, b, refused_at(if_statement(ks, i)), rest_if_statement(ks, i)),
    ensures
        is_if_statement(b, i, refused_at(if_statement(ks, i)) + rest_if_statement(ks, i).len()),
    decreases ks.len() - i, 10int,
{
    let e = refused_at(if_statement(ks, i)) + rest_if_statement(ks, i).len();
    let m = assignment(ks, i + 2)->next;
    progress_assignment(ks, i + 2);
    progress_block(ks, m + 1);
    sound_assignment(ks, i + 2, m);
    frame_assignment(ks, b, i + 2, m);
    viable_block(ks, b, m + 1);
    assert(b[i] == ks[i] && b[i + 1] == ks[i + 1] && b[m] == ks[m]);
    lemma_build_if_statement(b, i, m, e);
}

/// Where `if_statement` refused a token, the tokens before it and the tokens
/// still to come are an if statement.
proof fn viable_if_statement(ks: Seq<C1Token>, b: Seq<C1Token>, i: int)
    requires
        0 <= i <= ks.len(),
        if_statement(ks, i) is Rejected,
        continues(ks, b, refused_at(if_statement(ks, i)), rest_if_statement(ks, i)),
    ensures
        is_if_statement(b, i, refused_at(if_statement(ks, i)) + rest_if_statement(ks, i).len()),
    decreases ks.len() - i, 11int,
{
    if !is_at(ks, i, C1Token::KwIf) || !is_at(ks, i + 1, C1Token::LeftParenthesis) {
        viable_if_head(ks, b, i);
    } else if assignment(ks, i + 2) is Accepted && is_at(
        ks,
        assignment(ks, i + 2)->next,
        C1Token::RightParenthesis,
    ) {
        viable_if_body(ks, b, i);
    } else {
        viable_if_condition(ks, b, i);
    }
}

/// No block is empty.
proof fn lemma_block_not_empty(b: Seq<C1Token>, i: int, j: int)
    requires
        is_block(b, i, j),
    ensures
        i < j,
{
    if is_if_statement(b, i, j) {
        let m = choose|m: int|
            #[trigger] cuts(i + 2, m, j - 2) && is_assignment(b, i + 2, m) && is_at(
                b,
                m,
                C1Token::RightParenthesis,
            ) && is_block(b, m + 1, j);
    }
}

/// How a statement that starts with `return` ends.
pub open spec fn return_outcome(ks: Seq<C1Token>, i: int) -> Outcome {
    then_expect(return_statement(ks, i), ks, C1Token::Semicolon)
}

/// How a statement that starts with `printf` ends.
pub open spec fn printf_outcome(ks: Seq<C1Token>, i: int) -> Outcome {
    then_expect(printf(ks, i), ks, C1Token::Semicolon)
}

/// How a statement that starts with an identifier ends.
pub open spec fn identifier_outcome(ks: Seq<C1Token>, i: int) -> Outcome {
    if is_at(ks, i + 1, C1Token::Assign) {
        then_expect(stat_assignment(ks, i), ks, C1Token::Semicolon)
    } else {
        then_expect(function_call(ks, i), ks, C1Token::Semicolon)
    }
}

/// Where a statement that starts with `return` is cut short, the tokens
/// before the refused one and those still to come are a statement.
proof fn viable_return(ks: Seq<C1Token>, b: Seq<C1Token>, i: int)
    requires
        0 <= i <= ks.len(),
        is_at(ks, i, C1Token::KwReturn),
        return_outcome(ks, i) is Rejected,
        continues(ks, b, refused_at(return_outcome(ks, i)), rest_return_statement(ks, i)),
    ensures
        is_statement(
            b,
            i,
            refused_at(return_outcome(ks, i)) + rest_return_statement(ks, i).len(),
        ),
    decreases ks.len() - i, 10int,
{
    let at = refused_at(return_outcome(ks, i));
    let closing = seq![C1Token::Semicolon];
    assert(closing[0] == C1Token::Semicolon);
    if !exists_at(ks, i + 1) || ks[i + 1] == C1Token::Semicolon {
        assert(b[i] == ks[i]);
    } else {
        progress_assignment(ks, i + 1);
        viable_assignment_then(ks, b, i + 1, at, closing);
        lemma_not_empty(b, i + 1, assignment_end(ks, i + 1));
        assert(b[i] == ks[i]);
    }
}

/// Where a statement that starts with `printf` is cut short, the tokens
/// before the refused one and those still to come are a statement.
proof fn viable_printf(ks: Seq<C1Token>, b: Seq<C1Token>, i: int)
    requires
        0 <= i <= ks.len(),
        is_at(ks, i, C1Token::KwPrintf),
        printf_outcome(ks, i) is Rejected,
        continues(ks, b, refused_at(printf_outcome(ks, i)), rest_printf_statement(ks, i)),
    ensures
        is_statement(
            b,
            i,
            refused_at(printf_outcome(ks, i)) + rest_printf_statement(ks, i).len(),
        ),
    decreases ks.len() - i, 10int,
{
    let at = refused_at(printf_outcome(ks, i));
    let u = rest_printf_statement(ks, i);
    if !is_at(ks, i + 1, C1Token::LeftParenthesis) {
        assert(u[0] == C1Token::LeftParenthesis && u[1] == C1Token::Identifier && u[2]
            == C1Token::RightParenthesis && u[3] == C1Token::Semicolon);
        assert(b[i] == ks[i]);
        lemma_identifier_alone(b, i + 2);
    } else {
        progress_assignment(ks, i + 2);
        if assignment(ks, i + 2) is Accepted && is_at(
            ks,
            assignment(ks, i + 2)->next,
            C1Token::RightParenthesis,
        ) {
            let m = assignment(ks, i + 2)->next;
            sound_assignment(ks, i + 2, m);
            frame_assignment(ks, b, i + 2, m);
            assert(u[0] == C1Token::Semicolon);
            assert(b[i] == ks[i] && b[i + 1] == ks[i + 1] && b[m] == ks[m]);
        } else {
            let closing = seq![C1Token::RightParenthesis, C1Token::Semicolon];
            assert(closing[0] == C1Token::RightParenthesis && closing[1]
                == C1Token::Semicolon);
            viable_assignment_then(ks, b, i + 2, at, closing);
            lemma_not_empty(b, i + 2, assignment_end(ks, i + 2));
            assert(b[i] == ks[i] && b[i + 1] == ks[i + 1]);
        }
    }
}

/// Where a statement that starts with an identifier is cut short, the
/// tokens before the refused one and those still to come are a statement.
proof fn viable_identifier_statement(ks: Seq<C1Token>, b: Seq<C1Token>, i: int)
    requires
        0 <= i <= ks.len(),
        is_at(ks, i, C1Token::Identifier),
        identifier_outcome(ks, i) is Rejected,
        continues(
            ks,
            b,
            refused_at(identifier_outcome(ks, i)),
            rest_identifier_statement(ks, i),
        ),
    ensures
        is_statement(
            b,
            i,
            refused_at(identifier_outcome(ks, i)) + rest_identifier_statement(ks, i).len(),
        ),
    decreases ks.len() - i, 10int,
{
    let at = refused_at(identifier_outcome(ks, i));
    let u = rest_identifier_statement(ks, i);
    if is_at(ks, i + 1, C1Token::Assign) {
        progress_assignment(ks, i + 2);
        let closing = seq![C1Token::Semicolon];
        assert(closing[0] == C1Token::Semicolon);
        viable_assignment_then(ks, b, i + 2, at, closing);
        lemma_not_empty(b, i + 2, assignment_end(ks, i + 2));
        assert(b[i] == ks[i] && b[i + 1] == ks[i + 1]);
    } else if !is_at(ks, i + 1, C1Token::LeftParenthesis) {
        assert(u[0] == C1Token::LeftParenthesis && u[1] == C1Token::RightParenthesis && u[2]
            == C1Token::Semicolon);
        assert(b[i] == ks[i]);
        assert(is_function_call(b, i, i + 3));
    } else if !is_at(ks, i + 2, C1Token::RightParenthesis) {
        assert(u[0] == C1Token::RightParenthesis && u[1] == C1Token::Semicolon);
        assert(b[i] == ks[i] && b[i + 1] == ks[i + 1]);
        assert(is_function_call(b, i, i + 3));
    } else {
        assert(u[0] == C1Token::Semicolon);
        assert(b[i] == ks[i] && b[i + 1] == ks[i + 1] && b[i + 2] == ks[i + 2]);
        assert(is_function_call(b, i, i + 3));
    }
}

/// Where `statement` refused a token, the tokens before it and the tokens
/// still to come are a statement.
proof fn viable_statement(ks: Seq<C1Token>, b: Seq<C1Token>, i: int)
    requires
        0 <= i <= ks.len(),
        statement(ks, i) is Rejected,
        continues(ks, b, refused_at(statement(ks, i)), rest_statement(ks, i)),
    ensures
        is_statement(b, i, refused_at(statement(ks, i)) + rest_statement(ks, i).len()),
    decreases ks.len() - i, 12int,
{
    if is_at(ks, i, C1Token::KwIf) {
        viable_if_statement(ks, b, i);
    } else if is_at(ks, i, C1Token::KwReturn) {
        viable_return(ks, b, i);
    } else if is_at(ks, i, C1Token::KwPrintf) {
        viable_printf(ks, b, i);
    } else if is_at(ks, i, C1Token::Identifier) {
        viable_identifier_statement(ks, b, i);
    } else {
        let u = rest_statement(ks, i);
        assert(u[0] == C1Token::KwReturn && u[1] == C1Token::Semicolon);
    }
}

/// Where `block` refused a token, the tokens before it and the tokens
/// still to come are a block.
proof fn viable_block(ks: Seq<C1Token>, b: Seq<C1Token>, i: int)
    requires
        0 <= i <= ks.len(),
        block(ks, i) is Rejected,
        continues(ks, b, refused_at(block(ks, i)), rest_block(ks, i)),
    ensures
        is_block(b, i, refused_at(block(ks, i)) + rest_block(ks, i).len()),
    decreases ks.len() - i, 13int,
{
    let at = refused_at(block(ks, i));
    if is_at(ks, i, C1Token::LeftBrace) {
        lemma_progress(ks, i + 1);
        assert(b[i] == ks[i]);
        viable_statement_list_then(ks, b, i + 1, at);
    } else {
        viable_statement(ks, b, i);
    }
}

/// The tokens that are still to come where the statement list that starts at
/// `i` is cut short or lacks the `}` after it.
pub open spec fn rest_statement_list_then(ks: Seq<C1Token>, i: int) -> Seq<C1Token> {
    match statement_list(ks, i) {
        Outcome::Rejected { .. } => rest_statement_list(ks, i) + seq![C1Token::RightBrace],
        Outcome::Accepted { .. } => seq![C1Token::RightBrace],
    }
}

/// Where the statement list that starts at `i` ends once the tokens that are
/// still to come have come.
pub open spec fn statement_list_end(ks: Seq<C1Token>, i: int) -> int {
    match statement_list(ks, i) {
        Outcome::Rejected { reason, at } => at + rest_statement_list(ks, i).len(),
        Outcome::Accepted { next } => next,
    }
}

/// Where the statement list that starts at `i` is cut short at `at`, or ends
/// at `at` and lacks the `}`, it ends in `b` at `statement_list_end` and the
/// `}` follows it there.
proof fn viable_statement_list_then(ks: Seq<C1Token>, b: Seq<C1Token>, i: int, at: int)
    requires
        0 <= i <= ks.len(),
        match statement_list(ks, i) {
            Outcome::Rejected { reason, at: refused } => at == refused,
            Outcome::Accepted { next } => at == next,
        },
        continues(ks, b, at, rest_statement_list_then(ks, i)),
    ensures
        is_statement_list(b, i, statement_list_end(ks, i)),
        i <= statement_list_end(ks, i),
        is_at(b, statement_list_end(ks, i), C1Token::RightBrace),
    decreases ks.len() - i, 15int,
{
    lemma_progress(ks, i);
    let closing = seq![C1Token::RightBrace];
    assert(closing[0] == C1Token::RightBrace);
    match statement_list(ks, i) {
        Outcome::Rejected { .. } => {
            lemma_continues_split(ks, b, at, rest_statement_list(ks, i), closing);
            viable_statement_list(ks, b, i);
        },
        Outcome::Accepted { next } => {
            sound_statement_list(ks, i, next);
            frame_statement_list(ks, b, i, next);
        },
    }
}

/// Where `statement_list` refused a token, the tokens before it and the tokens
/// still to come are a statement list.
proof fn viable_statement_list(ks: Seq<C1Token>, b: Seq<C1Token>, i: int)
    requires
        0 <= i <= ks.len(),
        statement_list(ks, i) is Rejected,
        continues(ks, b, refused_at(statement_list(ks, i)), rest_statement_list(ks, i)),
    ensures
        is_statement_list(
            b,
            i,
            refused_at(statement_list(ks, i)) + rest_statement_list(ks, i).len(),
        ),
        i <= refused_at(statement_list(ks, i)),
    decreases ks.len() - i, 14int,
{
    let e = refused_at(statement_list(ks, i)) + rest_statement_list(ks, i).len();
    lemma_progress(ks, i);
    match block(ks, i) {
        Outcome::Rejected { .. } => {
            viable_block(ks, b, i);
            lemma_block_not_empty(b, i, e);
            assert(is_statement_list(b, e, e));
            assert(cuts(i, e, e));
        },
        Outcome::Accepted { next } => {
            lemma_progress(ks, next);
            sound_block(ks, i, next);
            frame_block(ks, b, i, next);
            viable_statement_list(ks, b, next);
            assert(cuts(i, next, e));
        },
    }
}

/// Where `function_definition` refused a token of the head, the function is
/// the least one that starts with the tokens before it.
proof fn viable_function_head(ks: Seq<C1Token>, b: Seq<C1Token>, i: int)
    requires
        0 <= i <= ks.len(),
        function_head(ks, i) is Rejected,
        continues(
            ks,
            b,
            refused_at(function_definition(ks, i)),
            rest_function_definition(ks, i),
        ),
    ensures
        is_function_definition(b, i, i + 6),
        refused_at(function_definition(ks, i)) + rest_function_definition(ks, i).len() == i + 6,
{
    let u = rest_function_definition(ks, i);
    assert(is_statement_list(b, i + 5, i + 5));
    if !(exists_at(ks, i) && ks[i].is_return_type()) {
        assert(u[0] == C1Token::KwVoid && u[1] == C1Token::Identifier && u[2]
            == C1Token::LeftParenthesis && u[3] == C1Token::RightParenthesis && u[4]
            == C1Token::LeftBrace && u[5] == C1Token::RightBrace);
    } else if !is_at(ks, i + 1, C1Token::Identifier) {
        assert(u[0] == C1Token::Identifier && u[1] == C1Token::LeftParenthesis && u[2]
            == C1Token::RightParenthesis && u[3] == C1Token::LeftBrace && u[4]
            == C1Token::RightBrace);
        assert(b[i] == ks[i]);
    } else if !is_at(ks, i + 2, C1Token::LeftParenthesis) {
        assert(u[0] == C1Token::LeftParenthesis && u[1] == C1Token::RightParenthesis && u[2]
            == C1Token::LeftBrace && u[3] == C1Token::RightBrace);
        assert(b[i] == ks[i] && b[i + 1] == ks[i + 1]);
    } else if !is_at(ks, i + 3, C1Token::RightParenthesis) {
        assert(u[0] == C1Token::RightParenthesis && u[1] == C1Token::LeftBrace && u[2]
            == C1Token::RightBrace);
        assert(b[i] == ks[i] && b[i + 1] == ks[i + 1] && b[i + 2] == ks[i + 2]);
    } else {
        assert(u[0] == C1Token::LeftBrace && u[1] == C1Token::RightBrace);
        assert(b[i] == ks[i] && b[i + 1] == ks[i + 1] && b[i + 2] == ks[i + 2] && b[i + 3]
            == ks[i + 3]);
    }
}

/// Where `function_definition` refused a token, the tokens before it and the tokens
/// still to come are a function definition.
proof fn viable_function_definition(ks: Seq<C1Token>, b: Seq<C1Token>, i: int)
    requires
        0 <= i <= ks.len(),
        function_definition(ks, i) is Rejected,
        continues(
            ks,
            b,
            refused_at(function_definition(ks, i)),
            rest_function_definition(ks, i),
        ),
    ensures
        is_function_definition(
            b,
            i,
            refused_at(function_definition(ks, i)) + rest_function_definition(ks, i).len(),
        ),
{
    let at = refused_at(function_definition(ks, i));
    if function_head(ks, i) is Rejected {
        viable_function_head(ks, b, i);
    } else {
        progress_statement_list(ks, i + 5);
        assert(rest_function_definition(ks, i) == rest_statement_list_then(ks, i + 5));
        viable_statement_list_then(ks, b, i + 5, at);
        assert(b[i] == ks[i] && b[i + 1] == ks[i + 1] && b[i + 2] == ks[i + 2] && b[i + 3]
            == ks[i + 3] && b[i + 4] == ks[i + 4]);
    }
}

/// Where `program` refused a token, the tokens before it and the tokens
/// still to come are a sequence of function definitions.
proof fn viable_program(ks: Seq<C1Token>, b: Seq<C1Token>, i: int)
    requires
        0 <= i <= ks.len(),
        program(ks, i) is Rejected,
        continues(ks, b, refused_at(program(ks, i)), rest_program(ks, i)),
        b.len() == refused_at(program(ks, i)) + rest_program(ks, i).len(),
    ensures
        is_program_part(b, i, b.len() as int),
    decreases ks.len() - i,
{
    let e = b.len() as int;
    lemma_progress(ks, i);
    match function_definition(ks, i) {
        Outcome::Rejected { reason, at } => {
            if at != i {
                viable_function_definition(ks, b, i);
                assert(is_program_part(b, e, e));
                assert(cuts(i, e, e));
            }
        },
        Outcome::Accepted { next } => {
            lemma_progress(ks, next);
            sound_function_definition(ks, i, next);
            frame_function_definition(ks, b, i, next);
            viable_program(ks, b, next);
            assert(cuts(i, next, e));
        },
    }
}

/// The tokens of `ks` before the one that the grammar engine refuses,
/// followed by the tokens that are still to come there.
pub open spec fn continued(ks: Seq<C1Token>) -> Seq<C1Token> {
    ks.take(refused_at(program(ks, 0))) + rest_program(ks, 0)
}

/// The grammar engine refuses no token earlier than it must: where it
/// refuses the token at index `at`, the tokens before that one are the start
/// of a program, namely of `continued(ks)`.
pub proof fn lemma_tokens_before_a_refusal_start_a_program(ks: Seq<C1Token>)
    requires
        program(ks, 0) is Rejected,
    ensures
        is_program(continued(ks)),
        same_tokens(ks, continued(ks), 0, refused_at(program(ks, 0))),
{
    let at = refused_at(program(ks, 0));
    let b = continued(ks);
    lemma_progress(ks, 0);
    assert(continues(ks, b, at, rest_program(ks, 0)));
    viable_program(ks, b, 0);
}

} // verus!
