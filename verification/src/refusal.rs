//! A refusal is final: what a routine decides up to some token does not depend
//! on the tokens after it. So where the grammar engine refuses a token, no
//! text that shares the tokens up to and including that one is a program.

use crate::completeness::lemma_accepts_exactly_the_programs;
use crate::grammar::is_program;
use crate::recognizer::{
    assignment, block, exists_at, expr, factor, function_definition, function_head, if_statement,
    is_at, lemma_progress, printf, program, return_statement, simpexpr, simpexpr_tail,
    stat_assignment, statement, statement_list, sum, term, term_tail, then_expect, Outcome,
};
use crate::token::C1Token;
use vstd::prelude::*;

verus! {

/// The sequences `a` and `b` hold the same tokens at every index below `n`.
pub open spec fn agree(a: Seq<C1Token>, b: Seq<C1Token>, n: int) -> bool {
    &&& n <= a.len()
    &&& n <= b.len()
    &&& forall|k: int| 0 <= k < n ==> a[k] == b[k]
}

/// The routine that ended with `o` stopped at a token below index `n`.
pub open spec fn settled(o: Outcome, n: int) -> bool {
    match o {
        Outcome::Accepted { next } => next < n,
        Outcome::Rejected { reason, at } => at < n,
    }
}

/// `factor` ends alike in two sequences that agree up to the token at which
/// it stops.
proof fn same_factor(a: Seq<C1Token>, b: Seq<C1Token>, n: int, i: int)
    requires
        agree(a, b, n),
        0 <= i <= a.len(),
        settled(factor(a, i), n),
    ensures
        factor(b, i) == factor(a, i),
    decreases a.len() - i, 1int,
{
    lemma_progress(a, i);
    if exists_at(a, i) && a[i].is_literal() {
    } else if is_at(a, i, C1Token::Identifier) {
    } else if is_at(a, i, C1Token::LeftParenthesis) {
        lemma_progress(a, i + 1);
        same_assignment(a, b, n, i + 1);
    }
}

/// `term_tail` ends alike in two sequences that agree up to the token at which
/// it stops.
proof fn same_term_tail(a: Seq<C1Token>, b: Seq<C1Token>, n: int, i: int)
    requires
        agree(a, b, n),
        0 <= i <= a.len(),
        settled(term_tail(a, i), n),
    ensures
        term_tail(b, i) == term_tail(a, i),
    decreases a.len() - i, 2int,
{
    lemma_progress(a, i);
    if exists_at(a, i) && a[i].is_multiplicative() {
        lemma_progress(a, i + 1);
        if let Outcome::Accepted { next } = factor(a, i + 1) {
            lemma_progress(a, next);
            same_factor(a, b, n, i + 1);
            same_term_tail(a, b, n, next);
        } else {
            same_factor(a, b, n, i + 1);
        }
    }
}

/// `term` ends alike in two sequences that agree up to the token at which
/// it stops.
proof fn same_term(a: Seq<C1Token>, b: Seq<C1Token>, n: int, i: int)
    requires
        agree(a, b, n),
        0 <= i <= a.len(),
        settled(term(a, i), n),
    ensures
        term(b, i) == term(a, i),
    decreases a.len() - i, 3int,
{
    lemma_progress(a, i);
    if let Outcome::Accepted { next } = factor(a, i) {
        lemma_progress(a, next);
        same_factor(a, b, n, i);
        same_term_tail(a, b, n, next);
    } else {
        same_factor(a, b, n, i);
    }
}

/// `simpexpr_tail` ends alike in two sequences that agree up to the token at which
/// it stops.
proof fn same_simpexpr_tail(a: Seq<C1Token>, b: Seq<C1Token>, n: int, i: int)
    requires
        agree(a, b, n),
        0 <= i <= a.len(),
        settled(simpexpr_tail(a, i), n),
    ensures
        simpexpr_tail(b, i) == simpexpr_tail(a, i),
    decreases a.len() - i, 4int,
{
    lemma_progress(a, i);
    if exists_at(a, i) && a[i].is_additive() {
        lemma_progress(a, i + 1);
        if let Outcome::Accepted { next } = term(a, i + 1) {
            lemma_progress(a, next);
            same_term(a, b, n, i + 1);
            same_simpexpr_tail(a, b, n, next);
        } else {
            same_term(a, b, n, i + 1);
        }
    }
}

/// `sum` ends alike in two sequences that agree up to the token at which
/// it stops.
proof fn same_sum(a: Seq<C1Token>, b: Seq<C1Token>, n: int, i: int)
    requires
        agree(a, b, n),
        0 <= i <= a.len(),
        settled(sum(a, i), n),
    ensures
        sum(b, i) == sum(a, i),
    decreases a.len() - i, 5int,
{
    lemma_progress(a, i);
    if let Outcome::Accepted { next } = term(a, i) {
        lemma_progress(a, next);
        same_term(a, b, n, i);
        same_simpexpr_tail(a, b, n, next);
    } else {
        same_term(a, b, n, i);
    }
}

/// `simpexpr` ends alike in two sequences that agree up to the token at which
/// it stops.
proof fn same_simpexpr(a: Seq<C1Token>, b: Seq<C1Token>, n: int, i: int)
    requires
        agree(a, b, n),
        0 <= i <= a.len(),
        settled(simpexpr(a, i), n),
    ensures
        simpexpr(b, i) == simpexpr(a, i),
    decreases a.len() - i, 6int,
{
    lemma_progress(a, i);
    if is_at(a, i, C1Token::Minus) {
        lemma_progress(a, i + 1);
        same_sum(a, b, n, i + 1);
    } else {
        same_sum(a, b, n, i);
    }
}

/// `expr` ends alike in two sequences that agree up to the token at which
/// it stops.
proof fn same_expr(a: Seq<C1Token>, b: Seq<C1Token>, n: int, i: int)
    requires
        agree(a, b, n),
        0 <= i <= a.len(),
        settled(expr(a, i), n),
    ensures
        expr(b, i) == expr(a, i),
    decreases a.len() - i, 7int,
{
    lemma_progress(a, i);
    if let Outcome::Accepted { next } = simpexpr(a, i) {
        if exists_at(a, next) && a[next].is_relational() {
            lemma_progress(a, next + 1);
            same_simpexpr(a, b, n, i);
            same_simpexpr(a, b, n, next + 1);
        } else {
            same_simpexpr(a, b, n, i);
        }
    } else {
        same_simpexpr(a, b, n, i);
    }
}

/// `assignment` ends alike in two sequences that agree up to the token at which
/// it stops.
proof fn same_assignment(a: Seq<C1Token>, b: Seq<C1Token>, n: int, i: int)
    requires
        agree(a, b, n),
        0 <= i <= a.len(),
        settled(assignment(a, i), n),
    ensures
        assignment(b, i) == assignment(a, i),
    decreases a.len() - i, 8int,
{
    lemma_progress(a, i);
    if is_at(a, i, C1Token::Identifier) && is_at(a, i + 1, C1Token::Assign) {
        lemma_progress(a, i + 2);
        same_assignment(a, b, n, i + 2);
    } else {
        same_expr(a, b, n, i);
    }
}

/// A routine that is followed by one expected token, and the two together
/// stop below `n`, stops below `n` itself, and the expected token is looked
/// for in the same way in both sequences.
proof fn same_then_expect(a: Seq<C1Token>, b: Seq<C1Token>, n: int, o: Outcome, k: C1Token)
    requires
        agree(a, b, n),
        settled(then_expect(o, a, k), n),
        o is Accepted ==> 0 <= o->next,
    ensures
        then_expect(o, b, k) == then_expect(o, a, k),
        settled(o, n),
{
}

/// `if_statement` ends alike in two sequences that agree up to the token at which
/// it stops.
proof fn same_if_statement(a: Seq<C1Token>, b: Seq<C1Token>, n: int, i: int)
    requires
        agree(a, b, n),
        0 <= i <= a.len(),
        settled(if_statement(a, i), n),
    ensures
        if_statement(b, i) == if_statement(a, i),
    decreases a.len() - i, 9int,
{
    lemma_progress(a, i);
    if is_at(a, i, C1Token::KwIf) && is_at(a, i + 1, C1Token::LeftParenthesis) {
        lemma_progress(a, i + 2);
        let head = then_expect(assignment(a, i + 2), a, C1Token::RightParenthesis);
        if let Outcome::Accepted { next } = head {
            lemma_progress(a, next);
            same_then_expect(a, b, n, assignment(a, i + 2), C1Token::RightParenthesis);
            same_assignment(a, b, n, i + 2);
            same_block(a, b, n, next);
        } else {
            same_then_expect(a, b, n, assignment(a, i + 2), C1Token::RightParenthesis);
            same_assignment(a, b, n, i + 2);
        }
    }
}

/// `return_statement` ends alike in two sequences that agree up to the token at which
/// it stops.
proof fn same_return_statement(a: Seq<C1Token>, b: Seq<C1Token>, n: int, i: int)
    requires
        agree(a, b, n),
        0 <= i <= a.len(),
        settled(return_statement(a, i), n),
    ensures
        return_statement(b, i) == return_statement(a, i),
    decreases a.len() - i, 9int,
{
    lemma_progress(a, i);
    if is_at(a, i, C1Token::KwReturn) {
        if !(!exists_at(a, i + 1) || a[i + 1] == C1Token::Semicolon) {
            lemma_progress(a, i + 1);
            same_assignment(a, b, n, i + 1);
        }
    }
}

/// `printf` ends alike in two sequences that agree up to the token at which
/// it stops.
proof fn same_printf(a: Seq<C1Token>, b: Seq<C1Token>, n: int, i: int)
    requires
        agree(a, b, n),
        0 <= i <= a.len(),
        settled(printf(a, i), n),
    ensures
        printf(b, i) == printf(a, i),
    decreases a.len() - i, 9int,
{
    lemma_progress(a, i);
    if is_at(a, i, C1Token::KwPrintf) && is_at(a, i + 1, C1Token::LeftParenthesis) {
        lemma_progress(a, i + 2);
        same_then_expect(a, b, n, assignment(a, i + 2), C1Token::RightParenthesis);
        same_assignment(a, b, n, i + 2);
    }
}

/// `stat_assignment` ends alike in two sequences that agree up to the token at which
/// it stops.
proof fn same_stat_assignment(a: Seq<C1Token>, b: Seq<C1Token>, n: int, i: int)
    requires
        agree(a, b, n),
        0 <= i <= a.len(),
        settled(stat_assignment(a, i), n),
    ensures
        stat_assignment(b, i) == stat_assignment(a, i),
    decreases a.len() - i, 9int,
{
    lemma_progress(a, i);
    if is_at(a, i, C1Token::Identifier) && is_at(a, i + 1, C1Token::Assign) {
        lemma_progress(a, i + 2);
        same_assignment(a, b, n, i + 2);
    }
}

/// `statement` ends alike in two sequences that agree up to the token at which
/// it stops.
proof fn same_statement(a: Seq<C1Token>, b: Seq<C1Token>, n: int, i: int)
    requires
        agree(a, b, n),
        0 <= i <= a.len(),
        settled(statement(a, i), n),
    ensures
        statement(b, i) == statement(a, i),
    decreases a.len() - i, 10int,
{
    lemma_progress(a, i);
    if is_at(a, i, C1Token::KwIf) {
        same_if_statement(a, b, n, i);
    } else if is_at(a, i, C1Token::KwReturn) {
        same_then_expect(a, b, n, return_statement(a, i), C1Token::Semicolon);
        same_return_statement(a, b, n, i);
    } else if is_at(a, i, C1Token::KwPrintf) {
        same_then_expect(a, b, n, printf(a, i), C1Token::Semicolon);
        same_printf(a, b, n, i);
    } else if is_at(a, i, C1Token::Identifier) {
        if is_at(a, i + 1, C1Token::Assign) {
            same_then_expect(a, b, n, stat_assignment(a, i), C1Token::Semicolon);
            same_stat_assignment(a, b, n, i);
        }
    }
}

/// `block` ends alike in two sequences that agree up to the token at which
/// it stops.
proof fn same_block(a: Seq<C1Token>, b: Seq<C1Token>, n: int, i: int)
    requires
        agree(a, b, n),
        0 <= i <= a.len(),
        settled(block(a, i), n),
    ensures
        block(b, i) == block(a, i),
    decreases a.len() - i, 11int,
{
    lemma_progress(a, i);
    if is_at(a, i, C1Token::LeftBrace) {
        lemma_progress(a, i + 1);
        same_then_expect(a, b, n, statement_list(a, i + 1), C1Token::RightBrace);
        same_statement_list(a, b, n, i + 1);
    } else {
        same_statement(a, b, n, i);
    }
}

/// `statement_list` ends alike in two sequences that agree up to the token at which
/// it stops.
proof fn same_statement_list(a: Seq<C1Token>, b: Seq<C1Token>, n: int, i: int)
    requires
        agree(a, b, n),
        0 <= i <= a.len(),
        settled(statement_list(a, i), n),
    ensures
        statement_list(b, i) == statement_list(a, i),
    decreases a.len() - i, 12int,
{
    lemma_progress(a, i);
    if !(!exists_at(a, i) || a[i] == C1Token::RightBrace) {
        if let Outcome::Accepted { next } = block(a, i) {
            lemma_progress(a, next);
            same_block(a, b, n, i);
            same_statement_list(a, b, n, next);
        } else {
            same_block(a, b, n, i);
        }
    }
}

/// `function_definition` ends alike in two sequences that agree up to the token at which
/// it stops.
proof fn same_function_definition(a: Seq<C1Token>, b: Seq<C1Token>, n: int, i: int)
    requires
        agree(a, b, n),
        0 <= i <= a.len(),
        settled(function_definition(a, i), n),
    ensures
        function_definition(b, i) == function_definition(a, i),
{
    lemma_progress(a, i);
    if let Outcome::Accepted { next } = function_head(a, i) {
        lemma_progress(a, next);
        same_then_expect(a, b, n, statement_list(a, next), C1Token::RightBrace);
        same_statement_list(a, b, n, next);
    }
}

/// `program` ends alike in two sequences that agree up to the token at which
/// it stops.
proof fn same_program(a: Seq<C1Token>, b: Seq<C1Token>, n: int, i: int)
    requires
        agree(a, b, n),
        0 <= i <= a.len(),
        program(a, i) is Rejected,
        settled(program(a, i), n),
    ensures
        program(b, i) == program(a, i),
    decreases a.len() - i,
{
    lemma_progress(a, i);
    if exists_at(a, i) {
        if let Outcome::Accepted { next } = function_definition(a, i) {
            lemma_progress(a, next);
            same_function_definition(a, b, n, i);
            lemma_progress(b, i);
            same_program(a, b, n, next);
        } else {
            same_function_definition(a, b, n, i);
        }
    }
}

/// Where the grammar engine refuses the token at index `at` of `a`, it refuses
/// the same token, for the same reason, in every sequence `b` that holds the
/// same tokens as `a` up to and including that one: none of them is a program.
pub proof fn lemma_refusal_is_final(a: Seq<C1Token>, b: Seq<C1Token>)
    requires
        program(a, 0) is Rejected,
        agree(a, b, program(a, 0)->at + 1),
    ensures
        program(b, 0) == program(a, 0),
        !is_program(b),
{
    same_program(a, b, program(a, 0)->at + 1, 0);
    lemma_accepts_exactly_the_programs(b);
}

} // verus!
