//! Whether the tokens from `i` up to `j` form a phrase depends on those
//! tokens alone: a phrase stays a phrase whatever stands before and after it.

use crate::grammar::{
    cuts, is_assignment, is_block, is_expr, is_factor, is_function_call, is_function_definition,
    is_if_statement, is_program_part, is_simpexpr, is_simpexpr_rest, is_statement,
    is_statement_list, is_sum, is_term, is_term_rest,
};
use crate::recognizer::{exists_at, is_at};
use crate::token::C1Token;
use vstd::prelude::*;

verus! {

/// The sequences `a` and `b` hold the same tokens from index `i` up to `j`.
pub open spec fn same_tokens(a: Seq<C1Token>, b: Seq<C1Token>, i: int, j: int) -> bool {
    &&& 0 <= i
    &&& j <= a.len()
    &&& j <= b.len()
    &&& forall|k: int| i <= k < j ==> a[k] == b[k]
}

/// A factor stays one in every sequence that holds the same tokens there.
pub proof fn frame_factor(a: Seq<C1Token>, b: Seq<C1Token>, i: int, j: int)
    requires
        is_factor(a, i, j),
        same_tokens(a, b, i, j),
    ensures
        is_factor(b, i, j),
    decreases j - i, 1int,
{
    if j == i + 1 && exists_at(a, i) && (a[i].is_literal() || a[i] == C1Token::Identifier) {
    } else if is_function_call(a, i, j) {
    } else {
        frame_assignment(a, b, i + 1, j - 1);
    }
}

/// A rest of a term stays one in every sequence that holds the same tokens there.
pub proof fn frame_term_rest(a: Seq<C1Token>, b: Seq<C1Token>, i: int, j: int)
    requires
        is_term_rest(a, i, j),
        same_tokens(a, b, i, j),
    ensures
        is_term_rest(b, i, j),
    decreases j - i, 2int,
{
    if i != j {
        let m = choose|m: int|
            #[trigger] cuts(i + 1, m, j) && is_factor(a, i + 1, m) && is_term_rest(a, m, j);
        frame_factor(a, b, i + 1, m);
        frame_term_rest(a, b, m, j);
        assert(cuts(i + 1, m, j));
    }
}

/// A term stays one in every sequence that holds the same tokens there.
pub proof fn frame_term(a: Seq<C1Token>, b: Seq<C1Token>, i: int, j: int)
    requires
        is_term(a, i, j),
        same_tokens(a, b, i, j),
    ensures
        is_term(b, i, j),
    decreases j - i, 3int,
{
    let m = choose|m: int|
        #[trigger] cuts(i, m, j) && is_factor(a, i, m) && is_term_rest(a, m, j);
    frame_factor(a, b, i, m);
    frame_term_rest(a, b, m, j);
    assert(cuts(i, m, j));
}

/// A rest of a simple expression stays one in every sequence that holds the same tokens there.
pub proof fn frame_simpexpr_rest(a: Seq<C1Token>, b: Seq<C1Token>, i: int, j: int)
    requires
        is_simpexpr_rest(a, i, j),
        same_tokens(a, b, i, j),
    ensures
        is_simpexpr_rest(b, i, j),
    decreases j - i, 4int,
{
    if i != j {
        let m = choose|m: int|
            #[trigger] cuts(i + 1, m, j) && is_term(a, i + 1, m) && is_simpexpr_rest(a, m, j);
        frame_term(a, b, i + 1, m);
        frame_simpexpr_rest(a, b, m, j);
        assert(cuts(i + 1, m, j));
    }
}

/// A sum of terms stays one in every sequence that holds the same tokens there.
pub proof fn frame_sum(a: Seq<C1Token>, b: Seq<C1Token>, i: int, j: int)
    requires
        is_sum(a, i, j),
        same_tokens(a, b, i, j),
    ensures
        is_sum(b, i, j),
    decreases j - i, 5int,
{
    let m = choose|m: int|
        #[trigger] cuts(i, m, j) && is_term(a, i, m) && is_simpexpr_rest(a, m, j);
    frame_term(a, b, i, m);
    frame_simpexpr_rest(a, b, m, j);
    assert(cuts(i, m, j));
}

/// A simple expression stays one in every sequence that holds the same tokens there.
pub proof fn frame_simpexpr(a: Seq<C1Token>, b: Seq<C1Token>, i: int, j: int)
    requires
        is_simpexpr(a, i, j),
        same_tokens(a, b, i, j),
    ensures
        is_simpexpr(b, i, j),
    decreases j - i, 6int,
{
    if is_sum(a, i, j) {
        frame_sum(a, b, i, j);
    } else {
        frame_sum(a, b, i + 1, j);
    }
}

/// An expression stays one in every sequence that holds the same tokens there.
pub proof fn frame_expr(a: Seq<C1Token>, b: Seq<C1Token>, i: int, j: int)
    requires
        is_expr(a, i, j),
        same_tokens(a, b, i, j),
    ensures
        is_expr(b, i, j),
    decreases j - i, 7int,
{
    if is_simpexpr(a, i, j) {
        frame_simpexpr(a, b, i, j);
    } else {
        let m = choose|m: int|
            #[trigger] cuts(i, m, j - 2) && is_simpexpr(a, i, m) && exists_at(a, m)
                && a[m].is_relational() && is_simpexpr(a, m + 1, j);
        frame_simpexpr(a, b, i, m);
        frame_simpexpr(a, b, m + 1, j);
        assert(cuts(i, m, j - 2));
    }
}

/// An assignment stays one in every sequence that holds the same tokens there.
pub proof fn frame_assignment(a: Seq<C1Token>, b: Seq<C1Token>, i: int, j: int)
    requires
        is_assignment(a, i, j),
        same_tokens(a, b, i, j),
    ensures
        is_assignment(b, i, j),
    decreases j - i, 8int,
{
    if is_expr(a, i, j) {
        frame_expr(a, b, i, j);
    } else {
        frame_assignment(a, b, i + 2, j);
    }
}

/// An if statement stays one in every sequence that holds the same tokens there.
pub proof fn frame_if_statement(a: Seq<C1Token>, b: Seq<C1Token>, i: int, j: int)
    requires
        is_if_statement(a, i, j),
        same_tokens(a, b, i, j),
    ensures
        is_if_statement(b, i, j),
    decreases j - i, 9int,
{
    let m = choose|m: int|
        #[trigger] cuts(i + 2, m, j - 2) && is_assignment(a, i + 2, m) && is_at(
            a,
            m,
            C1Token::RightParenthesis,
        ) && is_block(a, m + 1, j);
    frame_assignment(a, b, i + 2, m);
    frame_block(a, b, m + 1, j);
    assert(cuts(i + 2, m, j - 2));
}

/// A statement stays one in every sequence that holds the same tokens there.
pub proof fn frame_statement(a: Seq<C1Token>, b: Seq<C1Token>, i: int, j: int)
    requires
        is_statement(a, i, j),
        same_tokens(a, b, i, j),
    ensures
        is_statement(b, i, j),
    decreases j - i, 10int,
{
    if is_if_statement(a, i, j) {
        frame_if_statement(a, b, i, j);
    } else if is_at(a, i, C1Token::KwReturn) {
        if j != i + 2 {
            frame_assignment(a, b, i + 1, j - 1);
        }
    } else if is_at(a, i, C1Token::KwPrintf) {
        frame_assignment(a, b, i + 2, j - 2);
    } else if is_at(a, i, C1Token::Identifier) && is_at(a, i + 1, C1Token::Assign) {
        frame_assignment(a, b, i + 2, j - 1);
    } else {
    }
}

/// A block stays one in every sequence that holds the same tokens there.
pub proof fn frame_block(a: Seq<C1Token>, b: Seq<C1Token>, i: int, j: int)
    requires
        is_block(a, i, j),
        same_tokens(a, b, i, j),
    ensures
        is_block(b, i, j),
    decreases j - i, 11int,
{
    if is_statement(a, i, j) {
        frame_statement(a, b, i, j);
    } else {
        frame_statement_list(a, b, i + 1, j - 1);
    }
}

/// A statement list stays one in every sequence that holds the same tokens there.
pub proof fn frame_statement_list(a: Seq<C1Token>, b: Seq<C1Token>, i: int, j: int)
    requires
        is_statement_list(a, i, j),
        same_tokens(a, b, i, j),
    ensures
        is_statement_list(b, i, j),
    decreases j - i, 12int,
{
    if i != j {
        let m = choose|m: int|
            #[trigger] cuts(i, m, j) && is_block(a, i, m) && is_statement_list(a, m, j);
        frame_block(a, b, i, m);
        frame_statement_list(a, b, m, j);
        assert(cuts(i, m, j));
    }
}

/// A function definition stays one in every sequence that holds the same tokens there.
pub proof fn frame_function_definition(a: Seq<C1Token>, b: Seq<C1Token>, i: int, j: int)
    requires
        is_function_definition(a, i, j),
        same_tokens(a, b, i, j),
    ensures
        is_function_definition(b, i, j),
{
    frame_statement_list(a, b, i + 5, j - 1);
}

/// A sequence of function definitions stays one in every sequence that holds the same tokens there.
pub proof fn frame_program_part(a: Seq<C1Token>, b: Seq<C1Token>, i: int, j: int)
    requires
        is_program_part(a, i, j),
        same_tokens(a, b, i, j),
    ensures
        is_program_part(b, i, j),
    decreases j - i,
{
    if i != j {
        let m = choose|m: int|
            #[trigger] cuts(i, m, j) && is_function_definition(a, i, m) && is_program_part(
                a,
                m,
                j,
            );
        frame_function_definition(a, b, i, m);
        frame_program_part(a, b, m, j);
        assert(cuts(i, m, j));
    }
}

} // verus!
