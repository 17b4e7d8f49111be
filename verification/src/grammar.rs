//! The grammar of C1, stated over sequences of token categories.
//!
//! For each nonterminal there is a predicate that says whether the tokens from
//! index `i` up to, not including, index `j` form a phrase of that
//! nonterminal. The predicates follow the productions and say nothing of how a
//! phrase is found.
//!
//! ```text
//! program            ::= ( functiondefinition )*
//! functiondefinition ::= returntype ID "(" ")" "{" statementlist "}"
//! returntype         ::= "bool" | "float" | "int" | "void"
//! statementlist      ::= ( block )*
//! block              ::= "{" statementlist "}" | statement
//! statement          ::= ifstatement
//!                      | "return" ( assignment )? ";"
//!                      | "printf" "(" assignment ")" ";"
//!                      | ID "=" assignment ";"
//!                      | functioncall ";"
//! ifstatement        ::= "if" "(" assignment ")" block
//! functioncall       ::= ID "(" ")"
//! assignment         ::= ( ID "=" assignment ) | expr
//! expr               ::= simpexpr ( ("=="|"!="|"<="|">="|"<"|">") simpexpr )?
//! simpexpr           ::= ("-")? term ( ("+"|"-"|"||") term )*
//! term               ::= factor ( ("*"|"/"|"&&") factor )*
//! factor             ::= ConstInt | ConstFloat | ConstBoolean
//!                      | functioncall | ID | "(" assignment ")"
//! ```

use crate::recognizer::{exists_at, is_at};
use crate::token::C1Token;
use vstd::prelude::*;

verus! {

/// The index `m` cuts the tokens from `i` up to `j` in two parts, the first
/// of which is not empty.
pub open spec fn cuts(i: int, m: int, j: int) -> bool {
    i < m <= j
}

/// `functioncall ::= ID "(" ")"`
pub open spec fn is_function_call(ks: Seq<C1Token>, i: int, j: int) -> bool {
    &&& j == i + 3
    &&& is_at(ks, i, C1Token::Identifier)
    &&& is_at(ks, i + 1, C1Token::LeftParenthesis)
    &&& is_at(ks, i + 2, C1Token::RightParenthesis)
}

/// `factor ::= ConstInt | ConstFloat | ConstBoolean | functioncall | ID | "(" assignment ")"`
pub open spec fn is_factor(ks: Seq<C1Token>, i: int, j: int) -> bool
    decreases j - i, 1int,
{
    ||| (j == i + 1 && exists_at(ks, i) && (ks[i].is_literal() || ks[i] == C1Token::Identifier))
    ||| is_function_call(ks, i, j)
    ||| (i + 1 < j - 1 && is_at(ks, i, C1Token::LeftParenthesis) && is_at(
        ks,
        j - 1,
        C1Token::RightParenthesis,
    ) && is_assignment(ks, i + 1, j - 1))
}

/// `( ("*"|"/"|"&&") factor )*`
pub open spec fn is_term_rest(ks: Seq<C1Token>, i: int, j: int) -> bool
    decreases j - i, 2int,
{
    i == j || (i < j && exists_at(ks, i) && ks[i].is_multiplicative() && exists|m: int|
        #[trigger] cuts(i + 1, m, j) && is_factor(ks, i + 1, m) && is_term_rest(ks, m, j))
}

/// `term ::= factor ( ("*"|"/"|"&&") factor )*`
pub open spec fn is_term(ks: Seq<C1Token>, i: int, j: int) -> bool
    decreases j - i, 3int,
{
    exists|m: int| #[trigger] cuts(i, m, j) && is_factor(ks, i, m) && is_term_rest(ks, m, j)
}

/// `( ("+"|"-"|"||") term )*`
pub open spec fn is_simpexpr_rest(ks: Seq<C1Token>, i: int, j: int) -> bool
    decreases j - i, 4int,
{
    i == j || (i < j && exists_at(ks, i) && ks[i].is_additive() && exists|m: int|
        #[trigger] cuts(i + 1, m, j) && is_term(ks, i + 1, m) && is_simpexpr_rest(ks, m, j))
}

/// `term ( ("+"|"-"|"||") term )*`
pub open spec fn is_sum(ks: Seq<C1Token>, i: int, j: int) -> bool
    decreases j - i, 5int,
{
    exists|m: int| #[trigger] cuts(i, m, j) && is_term(ks, i, m) && is_simpexpr_rest(ks, m, j)
}

/// `simpexpr ::= ("-")? term ( ("+"|"-"|"||") term )*`
pub open spec fn is_simpexpr(ks: Seq<C1Token>, i: int, j: int) -> bool
    decreases j - i, 6int,
{
    is_sum(ks, i, j) || (i < j && is_at(ks, i, C1Token::Minus) && is_sum(ks, i + 1, j))
}

/// `expr ::= simpexpr ( ("=="|"!="|"<="|">="|"<"|">") simpexpr )?`
pub open spec fn is_expr(ks: Seq<C1Token>, i: int, j: int) -> bool
    decreases j - i, 7int,
{
    is_simpexpr(ks, i, j) || exists|m: int|
        #[trigger] cuts(i, m, j - 2) && is_simpexpr(ks, i, m) && exists_at(ks, m)
            && ks[m].is_relational() && is_simpexpr(ks, m + 1, j)
}

/// `assignment ::= ( ID "=" assignment ) | expr`
pub open spec fn is_assignment(ks: Seq<C1Token>, i: int, j: int) -> bool
    decreases j - i, 8int,
{
    ||| is_expr(ks, i, j)
    ||| (i + 2 < j && is_at(ks, i, C1Token::Identifier) && is_at(ks, i + 1, C1Token::Assign)
        && is_assignment(ks, i + 2, j))
}

/// `ifstatement ::= "if" "(" assignment ")" block`
pub open spec fn is_if_statement(ks: Seq<C1Token>, i: int, j: int) -> bool
    decreases j - i, 9int,
{
    &&& is_at(ks, i, C1Token::KwIf)
    &&& is_at(ks, i + 1, C1Token::LeftParenthesis)
    &&& exists|m: int|
        #[trigger] cuts(i + 2, m, j - 2) && is_assignment(ks, i + 2, m) && is_at(
            ks,
            m,
            C1Token::RightParenthesis,
        ) && is_block(ks, m + 1, j)
}

/// ```text
/// statement ::= ifstatement
///             | "return" ( assignment )? ";"
///             | "printf" "(" assignment ")" ";"
///             | ID "=" assignment ";"
///             | functioncall ";"
/// ```
pub open spec fn is_statement(ks: Seq<C1Token>, i: int, j: int) -> bool
    decreases j - i, 10int,
{
    ||| is_if_statement(ks, i, j)
    ||| (i + 1 < j && is_at(ks, i, C1Token::KwReturn) && is_at(ks, j - 1, C1Token::Semicolon) && (j
        == i + 2 || is_assignment(ks, i + 1, j - 1)))
    ||| (i + 2 < j - 2 && is_at(ks, i, C1Token::KwPrintf) && is_at(
        ks,
        i + 1,
        C1Token::LeftParenthesis,
    ) && is_assignment(ks, i + 2, j - 2) && is_at(ks, j - 2, C1Token::RightParenthesis) && is_at(
        ks,
        j - 1,
        C1Token::Semicolon,
    ))
    ||| (i + 2 < j - 1 && is_at(ks, i, C1Token::Identifier) && is_at(ks, i + 1, C1Token::Assign)
        && is_assignment(ks, i + 2, j - 1) && is_at(ks, j - 1, C1Token::Semicolon))
    ||| (is_function_call(ks, i, j - 1) && is_at(ks, j - 1, C1Token::Semicolon))
}

/// `block ::= "{" statementlist "}" | statement`
pub open spec fn is_block(ks: Seq<C1Token>, i: int, j: int) -> bool
    decreases j - i, 11int,
{
    ||| is_statement(ks, i, j)
    ||| (i + 1 <= j - 1 && is_at(ks, i, C1Token::LeftBrace) && is_at(
        ks,
        j - 1,
        C1Token::RightBrace,
    ) && is_statement_list(ks, i + 1, j - 1))
}

/// `statementlist ::= ( block )*`
pub open spec fn is_statement_list(ks: Seq<C1Token>, i: int, j: int) -> bool
    decreases j - i, 12int,
{
    i == j || exists|m: int|
        #[trigger] cuts(i, m, j) && is_block(ks, i, m) && is_statement_list(ks, m, j)
}

/// `functiondefinition ::= returntype ID "(" ")" "{" statementlist "}"`
pub open spec fn is_function_definition(ks: Seq<C1Token>, i: int, j: int) -> bool {
    &&& i + 5 <= j - 1
    &&& exists_at(ks, i)
    &&& ks[i].is_return_type()
    &&& is_at(ks, i + 1, C1Token::Identifier)
    &&& is_at(ks, i + 2, C1Token::LeftParenthesis)
    &&& is_at(ks, i + 3, C1Token::RightParenthesis)
    &&& is_at(ks, i + 4, C1Token::LeftBrace)
    &&& is_statement_list(ks, i + 5, j - 1)
    &&& is_at(ks, j - 1, C1Token::RightBrace)
}

/// `program ::= ( functiondefinition )*`
pub open spec fn is_program_part(ks: Seq<C1Token>, i: int, j: int) -> bool
    decreases j - i,
{
    i == j || exists|m: int|
        #[trigger] cuts(i, m, j) && is_function_definition(ks, i, m) && is_program_part(ks, m, j)
}

/// The whole sequence `ks` is a program.
pub open spec fn is_program(ks: Seq<C1Token>) -> bool {
    is_program_part(ks, 0, ks.len() as int)
}

} // verus!
