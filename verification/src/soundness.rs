//! Whatever a routine of the grammar engine accepts is a phrase of its nonterminal.

use crate::grammar::{
    cuts, is_assignment, is_block, is_expr, is_factor, is_function_definition, is_if_statement,
    is_program_part, is_simpexpr, is_simpexpr_rest, is_statement, is_statement_list, is_sum,
    is_term, is_term_rest,
};
use crate::recognizer::{
    advances, assignment, block, exists_at, expr, factor, function_definition, if_statement, is_at,
    lemma_progress, printf, program, return_statement, simpexpr, simpexpr_tail, stat_assignment,
    statement, statement_list, sum, term, term_tail, then_expect, Outcome,
};
use crate::token::C1Token;
use vstd::prelude::*;

verus! {

/// The routine that started at `i` accepted up to `j`.
pub open spec fn accepts(o: Outcome, j: int) -> bool {
    o == (Outcome::Accepted { next: j })
}

/// The tokens that `factor` accepts are a factor.
pub proof fn sound_factor(ks: Seq<C1Token>, i: int, j: int)
    requires
        0 <= i <= ks.len(),
        accepts(factor(ks, i), j),
    ensures
        is_factor(ks, i, j),
    decreases ks.len() - i, 1int,
{
    lemma_progress(ks, i);
    if exists_at(ks, i) && ks[i].is_literal() {
    } else if is_at(ks, i, C1Token::Identifier) {
    } else {
        lemma_progress(ks, i + 1);
        sound_assignment(ks, i + 1, j - 1);
    }
}

/// The tokens that `term_tail` accepts are the rest of a term.
pub proof fn sound_term_tail(ks: Seq<C1Token>, i: int, j: int)
    requires
        0 <= i <= ks.len(),
        accepts(term_tail(ks, i), j),
    ensures
        is_term_rest(ks, i, j),
    decreases ks.len() - i, 2int,
{
    if exists_at(ks, i) && ks[i].is_multiplicative() {
        lemma_progress(ks, i + 1);
        let m = factor(ks, i + 1)->next;
        lemma_progress(ks, m);
        sound_factor(ks, i + 1, m);
        sound_term_tail(ks, m, j);
        assert(cuts(i + 1, m, j));
    }
}

/// The tokens that `term` accepts are a term.
pub proof fn sound_term(ks: Seq<C1Token>, i: int, j: int)
    requires
        0 <= i <= ks.len(),
        accepts(term(ks, i), j),
    ensures
        is_term(ks, i, j),
    decreases ks.len() - i, 3int,
{
    lemma_progress(ks, i);
    let m = factor(ks, i)->next;
    lemma_progress(ks, m);
    sound_factor(ks, i, m);
    sound_term_tail(ks, m, j);
    assert(cuts(i, m, j));
}

/// The tokens that `simpexpr_tail` accepts are the rest of a simple expression.
pub proof fn sound_simpexpr_tail(ks: Seq<C1Token>, i: int, j: int)
    requires
        0 <= i <= ks.len(),
        accepts(simpexpr_tail(ks, i), j),
    ensures
        is_simpexpr_rest(ks, i, j),
    decreases ks.len() - i, 4int,
{
    if exists_at(ks, i) && ks[i].is_additive() {
        lemma_progress(ks, i + 1);
        let m = term(ks, i + 1)->next;
        lemma_progress(ks, m);
        sound_term(ks, i + 1, m);
        sound_simpexpr_tail(ks, m, j);
        assert(cuts(i + 1, m, j));
    }
}

/// The tokens that `sum` accepts are a sum of terms.
pub proof fn sound_sum(ks: Seq<C1Token>, i: int, j: int)
    requires
        0 <= i <= ks.len(),
        accepts(sum(ks, i), j),
    ensures
        is_sum(ks, i, j),
    decreases ks.len() - i, 5int,
{
    lemma_progress(ks, i);
    let m = term(ks, i)->next;
    lemma_progress(ks, m);
    sound_term(ks, i, m);
    sound_simpexpr_tail(ks, m, j);
    assert(cuts(i, m, j));
}

/// The tokens that `simpexpr` accepts are a simple expression.
pub proof fn sound_simpexpr(ks: Seq<C1Token>, i: int, j: int)
    requires
        0 <= i <= ks.len(),
        accepts(simpexpr(ks, i), j),
    ensures
        is_simpexpr(ks, i, j),
    decreases ks.len() - i, 6int,
{
    if is_at(ks, i, C1Token::Minus) {
        lemma_progress(ks, i + 1);
        sound_sum(ks, i + 1, j);
    } else {
        sound_sum(ks, i, j);
    }
}

/// The tokens that `expr` accepts are an expression.
pub proof fn sound_expr(ks: Seq<C1Token>, i: int, j: int)
    requires
        0 <= i <= ks.len(),
        accepts(expr(ks, i), j),
    ensures
        is_expr(ks, i, j),
    decreases ks.len() - i, 7int,
{
    lemma_progress(ks, i);
    let m = simpexpr(ks, i)->next;
    sound_simpexpr(ks, i, m);
    if exists_at(ks, m) && ks[m].is_relational() {
        lemma_progress(ks, m + 1);
        sound_simpexpr(ks, m + 1, j);
        assert(cuts(i, m, j - 2));
    }
}

/// The tokens that `assignment` accepts are an assignment.
pub proof fn sound_assignment(ks: Seq<C1Token>, i: int, j: int)
    requires
        0 <= i <= ks.len(),
        accepts(assignment(ks, i), j),
    ensures
        is_assignment(ks, i, j),
    decreases ks.len() - i, 8int,
{
    if is_at(ks, i, C1Token::Identifier) && is_at(ks, i + 1, C1Token::Assign) {
        lemma_progress(ks, i + 2);
        sound_assignment(ks, i + 2, j);
    } else {
        sound_expr(ks, i, j);
    }
}

/// The tokens that `if_statement` accepts are an if statement.
pub proof fn sound_if_statement(ks: Seq<C1Token>, i: int, j: int)
    requires
        0 <= i <= ks.len(),
        accepts(if_statement(ks, i), j),
    ensures
        is_if_statement(ks, i, j),
    decreases ks.len() - i, 9int,
{
    lemma_progress(ks, i + 2);
    let m = assignment(ks, i + 2)->next;
    sound_assignment(ks, i + 2, m);
    lemma_progress(ks, m + 1);
    sound_block(ks, m + 1, j);
    assert(cuts(i + 2, m, j - 2));
}

/// A statement that starts with `return` and is accepted is a statement.
proof fn sound_return_statement(ks: Seq<C1Token>, i: int, j: int)
    requires
        0 <= i <= ks.len(),
        is_at(ks, i, C1Token::KwReturn),
        accepts(then_expect(return_statement(ks, i), ks, C1Token::Semicolon), j),
    ensures
        is_statement(ks, i, j),
    decreases ks.len() - i, 9int,
{
    if !(!exists_at(ks, i + 1) || ks[i + 1] == C1Token::Semicolon) {
        sound_assignment(ks, i + 1, j - 1);
        assert(advances(ks, i + 1, assignment(ks, i + 1), 1)) by {
            lemma_progress(ks, i + 1);
        }
    }
}

/// A statement that starts with `printf` and is accepted is a statement.
proof fn sound_printf(ks: Seq<C1Token>, i: int, j: int)
    requires
        0 <= i <= ks.len(),
        is_at(ks, i, C1Token::KwPrintf),
        accepts(then_expect(printf(ks, i), ks, C1Token::Semicolon), j),
    ensures
        is_statement(ks, i, j),
    decreases ks.len() - i, 9int,
{
    sound_assignment(ks, i + 2, j - 2);
    assert(advances(ks, i + 2, assignment(ks, i + 2), 1)) by {
        lemma_progress(ks, i + 2);
    }
}

/// An assignment that stands as a statement and is accepted is a statement.
proof fn sound_stat_assignment(ks: Seq<C1Token>, i: int, j: int)
    requires
        0 <= i <= ks.len(),
        is_at(ks, i, C1Token::Identifier),
        is_at(ks, i + 1, C1Token::Assign),
        accepts(then_expect(stat_assignment(ks, i), ks, C1Token::Semicolon), j),
    ensures
        is_statement(ks, i, j),
    decreases ks.len() - i, 9int,
{
    sound_assignment(ks, i + 2, j - 1);
    assert(advances(ks, i + 2, assignment(ks, i + 2), 1)) by {
        lemma_progress(ks, i + 2);
    }
}

/// The tokens that `statement` accepts are a statement.
pub proof fn sound_statement(ks: Seq<C1Token>, i: int, j: int)
    requires
        0 <= i <= ks.len(),
        accepts(statement(ks, i), j),
    ensures
        is_statement(ks, i, j),
    decreases ks.len() - i, 10int,
{
    if is_at(ks, i, C1Token::KwIf) {
        sound_if_statement(ks, i, j);
    } else if is_at(ks, i, C1Token::KwReturn) {
        sound_return_statement(ks, i, j);
    } else if is_at(ks, i, C1Token::KwPrintf) {
        sound_printf(ks, i, j);
    } else if is_at(ks, i, C1Token::Identifier) {
        if is_at(ks, i + 1, C1Token::Assign) {
            sound_stat_assignment(ks, i, j);
        }
    }
}

/// The tokens that `block` accepts are a block.
pub proof fn sound_block(ks: Seq<C1Token>, i: int, j: int)
    requires
        0 <= i <= ks.len(),
        accepts(block(ks, i), j),
    ensures
        is_block(ks, i, j),
    decreases ks.len() - i, 11int,
{
    if is_at(ks, i, C1Token::LeftBrace) {
        lemma_progress(ks, i + 1);
        sound_statement_list(ks, i + 1, j - 1);
    } else {
        sound_statement(ks, i, j);
    }
}

/// The tokens that `statement_list` accepts are a statement list.
pub proof fn sound_statement_list(ks: Seq<C1Token>, i: int, j: int)
    requires
        0 <= i <= ks.len(),
        accepts(statement_list(ks, i), j),
    ensures
        is_statement_list(ks, i, j),
    decreases ks.len() - i, 12int,
{
    if !(!exists_at(ks, i) || ks[i] == C1Token::RightBrace) {
        lemma_progress(ks, i);
        let m = block(ks, i)->next;
        lemma_progress(ks, m);
        sound_block(ks, i, m);
        sound_statement_list(ks, m, j);
        assert(cuts(i, m, j));
    }
}

/// The tokens that `function_definition` accepts are a function definition.
pub proof fn sound_function_definition(ks: Seq<C1Token>, i: int, j: int)
    requires
        0 <= i <= ks.len(),
        accepts(function_definition(ks, i), j),
    ensures
        is_function_definition(ks, i, j),
{
    lemma_progress(ks, i);
    lemma_progress(ks, i + 5);
    sound_statement_list(ks, i + 5, j - 1);
}

/// What `program` accepts from index `i` on is a sequence of function
/// definitions that reaches the end of the text.
pub proof fn sound_program(ks: Seq<C1Token>, i: int, j: int)
    requires
        0 <= i <= ks.len(),
        accepts(program(ks, i), j),
    ensures
        is_program_part(ks, i, j),
        j == ks.len(),
    decreases ks.len() - i,
{
    if exists_at(ks, i) {
        lemma_progress(ks, i);
        let m = function_definition(ks, i)->next;
        sound_function_definition(ks, i, m);
        sound_program(ks, m, j);
        assert(cuts(i, m, j));
    }
}

} // verus!
