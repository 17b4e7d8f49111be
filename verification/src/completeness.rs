//! Every phrase of a nonterminal is accepted by the routine of that
//! nonterminal, which then stops at the phrase's end, provided that the token
//! after the phrase does not ask the routine to go on.

use crate::grammar::{
    cuts, is_assignment, is_block, is_expr, is_factor, is_function_call, is_function_definition,
    is_if_statement, is_program, is_program_part, is_simpexpr, is_simpexpr_rest, is_statement,
    is_statement_list, is_sum, is_term, is_term_rest,
};
use crate::recognizer::{
    assignment, block, exists_at, expr, factor, function_definition, if_statement, is_at, printf,
    program, simpexpr, simpexpr_tail, statement, statement_list, sum, term, term_tail,
};
use crate::soundness::{accepts, sound_program};
use crate::token::C1Token;
use vstd::prelude::*;

verus! {

/// The token at `j` does not turn an identifier before it into a call.
pub open spec fn ends_factor(ks: Seq<C1Token>, j: int) -> bool {
    !is_at(ks, j, C1Token::LeftParenthesis)
}

/// The token at `j` continues no term that ends before it.
pub open spec fn ends_term(ks: Seq<C1Token>, j: int) -> bool {
    ends_factor(ks, j) && !(exists_at(ks, j) && ks[j].is_multiplicative())
}

/// The token at `j` continues no simple expression that ends before it.
pub open spec fn ends_simpexpr(ks: Seq<C1Token>, j: int) -> bool {
    ends_term(ks, j) && !(exists_at(ks, j) && ks[j].is_additive())
}

/// The token at `j` continues no expression that ends before it.
pub open spec fn ends_expr(ks: Seq<C1Token>, j: int) -> bool {
    ends_simpexpr(ks, j) && !(exists_at(ks, j) && ks[j].is_relational())
}

/// The token at `j` continues no assignment that ends before it.
pub open spec fn ends_assignment(ks: Seq<C1Token>, j: int) -> bool {
    ends_expr(ks, j) && !is_at(ks, j, C1Token::Assign)
}

/// The text ends at `j`, or a `}` stands there.
pub open spec fn ends_statement_list(ks: Seq<C1Token>, j: int) -> bool {
    !exists_at(ks, j) || ks[j] == C1Token::RightBrace
}

/// A token that starts no factor is refused by every routine for expressions.
proof fn lemma_refused_start(ks: Seq<C1Token>, i: int)
    requires
        0 <= i <= ks.len(),
        !(exists_at(ks, i) && (ks[i].is_literal() || ks[i] == C1Token::Identifier || ks[i]
            == C1Token::LeftParenthesis || ks[i] == C1Token::Minus)),
    ensures
        assignment(ks, i) is Rejected,
        sum(ks, i) is Rejected,
{
    assert(factor(ks, i) is Rejected);
    assert(term(ks, i) is Rejected);
    assert(sum(ks, i) is Rejected);
    assert(simpexpr(ks, i) is Rejected);
    assert(expr(ks, i) is Rejected);
}

/// After a minus no second minus is taken.
proof fn lemma_refused_minus(ks: Seq<C1Token>, i: int)
    requires
        is_at(ks, i, C1Token::Minus),
    ensures
        sum(ks, i) is Rejected,
{
    assert(factor(ks, i) is Rejected);
    assert(term(ks, i) is Rejected);
}

/// An identifier before `=` is, taken as an expression, the identifier alone.
proof fn lemma_expr_before_assign(ks: Seq<C1Token>, i: int)
    requires
        is_at(ks, i, C1Token::Identifier),
        is_at(ks, i + 1, C1Token::Assign),
    ensures
        accepts(expr(ks, i), i + 1),
{
    assert(accepts(factor(ks, i), i + 1));
    assert(accepts(term_tail(ks, i + 1), i + 1));
    assert(accepts(term(ks, i), i + 1));
    assert(accepts(simpexpr_tail(ks, i + 1), i + 1));
    assert(accepts(sum(ks, i), i + 1));
    assert(accepts(simpexpr(ks, i), i + 1));
}

/// `factor` accepts every factor that no `(` follows, and stops at its end.
pub proof fn complete_factor(ks: Seq<C1Token>, i: int, j: int)
    requires
        0 <= i,
        j <= ks.len(),
        is_factor(ks, i, j),
        ends_factor(ks, j),
    ensures
        accepts(factor(ks, i), j),
    decreases j - i, 1int,
{
    if j == i + 1 && exists_at(ks, i) && (ks[i].is_literal() || ks[i] == C1Token::Identifier) {
    } else if is_function_call(ks, i, j) {
    } else {
        complete_assignment(ks, i + 1, j - 1);
    }
}

/// `term_tail` accepts every rest of a term that no `(` and no operator of a
/// term follows, and stops at its end.
pub proof fn complete_term_rest(ks: Seq<C1Token>, i: int, j: int)
    requires
        0 <= i,
        j <= ks.len(),
        is_term_rest(ks, i, j),
        ends_term(ks, j),
    ensures
        accepts(term_tail(ks, i), j),
    decreases j - i, 2int,
{
    if i != j {
        let m = choose|m: int|
            #[trigger] cuts(i + 1, m, j) && is_factor(ks, i + 1, m) && is_term_rest(ks, m, j);
        complete_factor(ks, i + 1, m);
        complete_term_rest(ks, m, j);
    }
}

/// `term` accepts every term that no `(` and no operator of a term follows,
/// and stops at its end.
pub proof fn complete_term(ks: Seq<C1Token>, i: int, j: int)
    requires
        0 <= i,
        j <= ks.len(),
        is_term(ks, i, j),
        ends_term(ks, j),
    ensures
        accepts(term(ks, i), j),
    decreases j - i, 3int,
{
    let m = choose|m: int|
        #[trigger] cuts(i, m, j) && is_factor(ks, i, m) && is_term_rest(ks, m, j);
    complete_factor(ks, i, m);
    complete_term_rest(ks, m, j);
}

/// `simpexpr_tail` accepts every rest of a simple expression that no token
/// follows which continues a simple expression, and stops at its end.
pub proof fn complete_simpexpr_rest(ks: Seq<C1Token>, i: int, j: int)
    requires
        0 <= i,
        j <= ks.len(),
        is_simpexpr_rest(ks, i, j),
        ends_simpexpr(ks, j),
    ensures
        accepts(simpexpr_tail(ks, i), j),
    decreases j - i, 4int,
{
    if i != j {
        let m = choose|m: int|
            #[trigger] cuts(i + 1, m, j) && is_term(ks, i + 1, m) && is_simpexpr_rest(
                ks,
                m,
                j,
            );
        complete_term(ks, i + 1, m);
        complete_simpexpr_rest(ks, m, j);
    }
}

/// `sum` accepts every sum of terms that no token follows which continues a
/// simple expression, and stops at its end.
pub proof fn complete_sum(ks: Seq<C1Token>, i: int, j: int)
    requires
        0 <= i,
        j <= ks.len(),
        is_sum(ks, i, j),
        ends_simpexpr(ks, j),
    ensures
        accepts(sum(ks, i), j),
    decreases j - i, 5int,
{
    let m = choose|m: int|
        #[trigger] cuts(i, m, j) && is_term(ks, i, m) && is_simpexpr_rest(ks, m, j);
    complete_term(ks, i, m);
    complete_simpexpr_rest(ks, m, j);
}

/// `simpexpr` accepts every simple expression that no token follows which
/// continues a simple expression, and stops at its end.
pub proof fn complete_simpexpr(ks: Seq<C1Token>, i: int, j: int)
    requires
        0 <= i,
        j <= ks.len(),
        is_simpexpr(ks, i, j),
        ends_simpexpr(ks, j),
    ensures
        accepts(simpexpr(ks, i), j),
    decreases j - i, 6int,
{
    if is_at(ks, i, C1Token::Minus) {
        if is_sum(ks, i, j) {
            complete_sum(ks, i, j);
            lemma_refused_minus(ks, i);
        } else {
            complete_sum(ks, i + 1, j);
        }
    } else {
        complete_sum(ks, i, j);
    }
}

/// `expr` accepts every expression that no token follows which continues an
/// expression, and stops at its end.
pub proof fn complete_expr(ks: Seq<C1Token>, i: int, j: int)
    requires
        0 <= i,
        j <= ks.len(),
        is_expr(ks, i, j),
        ends_expr(ks, j),
    ensures
        accepts(expr(ks, i), j),
    decreases j - i, 7int,
{
    if is_simpexpr(ks, i, j) {
        complete_simpexpr(ks, i, j);
    } else {
        let m = choose|m: int|
            #[trigger] cuts(i, m, j - 2) && is_simpexpr(ks, i, m) && exists_at(ks, m)
                && ks[m].is_relational() && is_simpexpr(ks, m + 1, j);
        complete_simpexpr(ks, i, m);
        complete_simpexpr(ks, m + 1, j);
    }
}

/// `assignment` accepts every assignment that no token follows which continues
/// an assignment, and stops at its end.
pub proof fn complete_assignment(ks: Seq<C1Token>, i: int, j: int)
    requires
        0 <= i,
        j <= ks.len(),
        is_assignment(ks, i, j),
        ends_assignment(ks, j),
    ensures
        accepts(assignment(ks, i), j),
    decreases j - i, 8int,
{
    if is_at(ks, i, C1Token::Identifier) && is_at(ks, i + 1, C1Token::Assign) {
        if i + 2 < j && is_assignment(ks, i + 2, j) {
            complete_assignment(ks, i + 2, j);
        } else {
            complete_expr(ks, i, j);
            lemma_expr_before_assign(ks, i);
        }
    } else {
        complete_expr(ks, i, j);
    }
}

/// `if_statement` accepts every if statement, and stops at its end.
pub proof fn complete_if_statement(ks: Seq<C1Token>, i: int, j: int)
    requires
        0 <= i,
        j <= ks.len(),
        is_if_statement(ks, i, j),
    ensures
        accepts(if_statement(ks, i), j),
    decreases j - i, 9int,
{
    let m = choose|m: int|
        #[trigger] cuts(i + 2, m, j - 2) && is_assignment(ks, i + 2, m) && is_at(
            ks,
            m,
            C1Token::RightParenthesis,
        ) && is_block(ks, m + 1, j);
    complete_assignment(ks, i + 2, m);
    complete_block(ks, m + 1, j);
}

/// `statement` accepts every statement that starts with `return`.
proof fn complete_return_statement(ks: Seq<C1Token>, i: int, j: int)
    requires
        0 <= i,
        j <= ks.len(),
        i + 1 < j,
        is_at(ks, i, C1Token::KwReturn),
        is_at(ks, j - 1, C1Token::Semicolon),
        j == i + 2 || is_assignment(ks, i + 1, j - 1),
    ensures
        accepts(statement(ks, i), j),
    decreases j - i, 9int,
{
    if j != i + 2 {
        complete_assignment(ks, i + 1, j - 1);
        if ks[i + 1] == C1Token::Semicolon {
            lemma_refused_start(ks, i + 1);
        }
    }
}

/// `statement` accepts every statement that starts with `printf`.
proof fn complete_printf(ks: Seq<C1Token>, i: int, j: int)
    requires
        0 <= i,
        j <= ks.len(),
        i + 2 < j - 2,
        is_at(ks, i, C1Token::KwPrintf),
        is_at(ks, i + 1, C1Token::LeftParenthesis),
        is_assignment(ks, i + 2, j - 2),
        is_at(ks, j - 2, C1Token::RightParenthesis),
        is_at(ks, j - 1, C1Token::Semicolon),
    ensures
        accepts(statement(ks, i), j),
    decreases j - i, 9int,
{
    complete_assignment(ks, i + 2, j - 2);
}

/// `statement` accepts every assignment that stands as a statement.
proof fn complete_stat_assignment(ks: Seq<C1Token>, i: int, j: int)
    requires
        0 <= i,
        j <= ks.len(),
        i + 2 < j - 1,
        is_at(ks, i, C1Token::Identifier),
        is_at(ks, i + 1, C1Token::Assign),
        is_assignment(ks, i + 2, j - 1),
        is_at(ks, j - 1, C1Token::Semicolon),
    ensures
        accepts(statement(ks, i), j),
    decreases j - i, 9int,
{
    complete_assignment(ks, i + 2, j - 1);
}

/// `statement` accepts every statement, and stops at its end.
pub proof fn complete_statement(ks: Seq<C1Token>, i: int, j: int)
    requires
        0 <= i,
        j <= ks.len(),
        is_statement(ks, i, j),
    ensures
        accepts(statement(ks, i), j),
    decreases j - i, 10int,
{
    if is_if_statement(ks, i, j) {
        complete_if_statement(ks, i, j);
    } else if is_at(ks, i, C1Token::KwReturn) {
        complete_return_statement(ks, i, j);
    } else if is_at(ks, i, C1Token::KwPrintf) {
        complete_printf(ks, i, j);
    } else if is_at(ks, i, C1Token::Identifier) && is_at(ks, i + 1, C1Token::Assign) {
        complete_stat_assignment(ks, i, j);
    } else {
    }
}

/// `block` accepts every block, and stops at its end.
pub proof fn complete_block(ks: Seq<C1Token>, i: int, j: int)
    requires
        0 <= i,
        j <= ks.len(),
        is_block(ks, i, j),
    ensures
        accepts(block(ks, i), j),
    decreases j - i, 11int,
{
    if is_at(ks, i, C1Token::LeftBrace) {
        assert(!is_if_statement(ks, i, j));
        assert(!is_function_call(ks, i, j - 1));
        assert(!is_statement(ks, i, j));
        complete_statement_list(ks, i + 1, j - 1);
    } else {
        complete_statement(ks, i, j);
    }
}

/// `statement_list` accepts every statement list that the end of the text or a
/// `}` follows, and stops at its end.
pub proof fn complete_statement_list(ks: Seq<C1Token>, i: int, j: int)
    requires
        0 <= i,
        j <= ks.len(),
        is_statement_list(ks, i, j),
        ends_statement_list(ks, j),
    ensures
        accepts(statement_list(ks, i), j),
    decreases j - i, 12int,
{
    if i != j {
        let m = choose|m: int|
            #[trigger] cuts(i, m, j) && is_block(ks, i, m) && is_statement_list(ks, m, j);
        complete_block(ks, i, m);
        complete_statement_list(ks, m, j);
    }
}

/// `function_definition` accepts every function definition, and stops at its
/// end.
pub proof fn complete_function_definition(ks: Seq<C1Token>, i: int, j: int)
    requires
        0 <= i,
        j <= ks.len(),
        is_function_definition(ks, i, j),
    ensures
        accepts(function_definition(ks, i), j),
{
    complete_statement_list(ks, i + 5, j - 1);
}

/// `program` accepts every sequence of function definitions that reaches
/// the end of the text.
pub proof fn complete_program(ks: Seq<C1Token>, i: int)
    requires
        0 <= i,
        is_program_part(ks, i, ks.len() as int),
    ensures
        accepts(program(ks, i), ks.len() as int),
    decreases ks.len() - i,
{
    let j = ks.len() as int;
    if i != j {
        let m = choose|m: int|
            #[trigger] cuts(i, m, j) && is_function_definition(ks, i, m) && is_program_part(
                ks,
                m,
                j,
            );
        complete_function_definition(ks, i, m);
        complete_program(ks, m);
    }
}

/// The grammar engine accepts a sequence of tokens if and only if the
/// sequence is a program.
pub proof fn lemma_accepts_exactly_the_programs(ks: Seq<C1Token>)
    ensures
        program(ks, 0) is Accepted <==> is_program(ks),
{
    if program(ks, 0) is Accepted {
        sound_program(ks, 0, program(ks, 0)->next);
    }
    if is_program(ks) {
        complete_program(ks, 0);
    }
}

} // verus!
