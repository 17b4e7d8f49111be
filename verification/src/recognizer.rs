//! What the grammar engine does, as functions on a sequence of token
//! categories: for each routine, where in the sequence it stops, and whether
//! it accepts what it has read or refuses the token at which it stops.
//!
//! Each function takes the sequence and the index of the current token. A
//! routine never looks further than one token past the current one, and never
//! goes back.
//!
//! A routine that calls another one at an index taken from an earlier result
//! first tests that the index lies where `lemma_progress` shows it to lie
//! always.

use crate::token::C1Token;
use vstd::prelude::*;

verus! {

/// Why a routine refused a token.
#[derive(Clone, Copy, Debug, PartialEq, Eq, Structural)]
pub enum Reason {
    /// A given category was required, and the current token has another one
    /// or is absent.
    UnexpectedToken,
    /// The current token names no return type.
    UnexpectedType,
    /// The current token starts no statement.
    EmptyStatement,
}

/// How a routine ends.
pub enum Outcome {
    /// The routine matched the tokens up to `next`, which is now current.
    Accepted { next: int },
    /// The routine could not take the token at index `at` (which is the length
    /// of the sequence where the text ended too early).
    Rejected { reason: Reason, at: int },
}

/// The token at index `i` exists.
pub open spec fn exists_at(ks: Seq<C1Token>, i: int) -> bool {
    0 <= i < ks.len()
}

/// The token at index `i` exists and has category `k`.
pub open spec fn is_at(ks: Seq<C1Token>, i: int, k: C1Token) -> bool {
    0 <= i < ks.len() && ks[i] == k
}

/// Takes one token of category `k`.
pub open spec fn expect(ks: Seq<C1Token>, i: int, k: C1Token) -> Outcome {
    if is_at(ks, i, k) {
        Outcome::Accepted { next: i + 1 }
    } else {
        Outcome::Rejected { reason: Reason::UnexpectedToken, at: i }
    }
}

/// After a routine that ended with `o`, takes one token of category `k`.
pub open spec fn then_expect(o: Outcome, ks: Seq<C1Token>, k: C1Token) -> Outcome {
    match o {
        Outcome::Accepted { next } => expect(ks, next, k),
        rejected => rejected,
    }
}

/// `returntype ::= "bool" | "float" | "int" | "void"`
pub open spec fn return_type(ks: Seq<C1Token>, i: int) -> Outcome {
    if exists_at(ks, i) && ks[i].is_return_type() {
        Outcome::Accepted { next: i + 1 }
    } else {
        Outcome::Rejected { reason: Reason::UnexpectedType, at: i }
    }
}

/// `functioncall ::= ID "(" ")"`
pub open spec fn function_call(ks: Seq<C1Token>, i: int) -> Outcome {
    then_expect(
        then_expect(expect(ks, i, C1Token::Identifier), ks, C1Token::LeftParenthesis),
        ks,
        C1Token::RightParenthesis,
    )
}

/// `factor ::= ConstInt | ConstFloat | ConstBoolean | functioncall | ID | "(" assignment ")"`
///
/// An identifier is a call where a `(` follows it, a variable otherwise.
pub open spec fn factor(ks: Seq<C1Token>, i: int) -> Outcome
    decreases ks.len() - i, 1int,
{
    if exists_at(ks, i) && ks[i].is_literal() {
        Outcome::Accepted { next: i + 1 }
    } else if is_at(ks, i, C1Token::Identifier) {
        if is_at(ks, i + 1, C1Token::LeftParenthesis) {
            function_call(ks, i)
        } else {
            Outcome::Accepted { next: i + 1 }
        }
    } else if is_at(ks, i, C1Token::LeftParenthesis) {
        then_expect(assignment(ks, i + 1), ks, C1Token::RightParenthesis)
    } else {
        Outcome::Rejected { reason: Reason::UnexpectedToken, at: i }
    }
}

/// The rest of a term, after a factor: `( ("*"|"/"|"&&") factor )*`
pub open spec fn term_tail(ks: Seq<C1Token>, i: int) -> Outcome
    decreases ks.len() - i, 2int,
{
    if exists_at(ks, i) && ks[i].is_multiplicative() {
        match factor(ks, i + 1) {
            Outcome::Accepted { next } => if i < next <= ks.len() {
                term_tail(ks, next)
            } else {
                Outcome::Accepted { next }
            },
            rejected => rejected,
        }
    } else {
        Outcome::Accepted { next: i }
    }
}

/// `term ::= factor ( ("*"|"/"|"&&") factor )*`
pub open spec fn term(ks: Seq<C1Token>, i: int) -> Outcome
    decreases ks.len() - i, 3int,
{
    match factor(ks, i) {
        Outcome::Accepted { next } => if i <= next <= ks.len() {
            term_tail(ks, next)
        } else {
            Outcome::Accepted { next }
        },
        rejected => rejected,
    }
}

/// The rest of a simple expression, after a term: `( ("+"|"-"|"||") term )*`
pub open spec fn simpexpr_tail(ks: Seq<C1Token>, i: int) -> Outcome
    decreases ks.len() - i, 4int,
{
    if exists_at(ks, i) && ks[i].is_additive() {
        match term(ks, i + 1) {
            Outcome::Accepted { next } => if i < next <= ks.len() {
                simpexpr_tail(ks, next)
            } else {
                Outcome::Accepted { next }
            },
            rejected => rejected,
        }
    } else {
        Outcome::Accepted { next: i }
    }
}

/// `term ( ("+"|"-"|"||") term )*`
pub open spec fn sum(ks: Seq<C1Token>, i: int) -> Outcome
    decreases ks.len() - i, 5int,
{
    match term(ks, i) {
        Outcome::Accepted { next } => if i <= next <= ks.len() {
            simpexpr_tail(ks, next)
        } else {
            Outcome::Accepted { next }
        },
        rejected => rejected,
    }
}

/// `simpexpr ::= ("-")? term ( ("+"|"-"|"||") term )*`
pub open spec fn simpexpr(ks: Seq<C1Token>, i: int) -> Outcome
    decreases ks.len() - i, 6int,
{
    if is_at(ks, i, C1Token::Minus) {
        sum(ks, i + 1)
    } else {
        sum(ks, i)
    }
}

/// `expr ::= simpexpr ( ("=="|"!="|"<="|">="|"<"|">") simpexpr )?`
pub open spec fn expr(ks: Seq<C1Token>, i: int) -> Outcome
    decreases ks.len() - i, 7int,
{
    match simpexpr(ks, i) {
        Outcome::Accepted { next } => if i <= next && exists_at(ks, next)
            && ks[next].is_relational() {
            simpexpr(ks, next + 1)
        } else {
            Outcome::Accepted { next }
        },
        rejected => rejected,
    }
}

/// `assignment ::= ( ID "=" assignment ) | expr`
///
/// The first form is taken where the current token is an identifier and the
/// next one is `=`.
pub open spec fn assignment(ks: Seq<C1Token>, i: int) -> Outcome
    decreases ks.len() - i, 8int,
{
    if is_at(ks, i, C1Token::Identifier) && is_at(ks, i + 1, C1Token::Assign) {
        assignment(ks, i + 2)
    } else {
        expr(ks, i)
    }
}

/// `ID "=" assignment`, the assignment that stands as a statement.
pub open spec fn stat_assignment(ks: Seq<C1Token>, i: int) -> Outcome
    decreases ks.len() - i, 9int,
{
    match then_expect(expect(ks, i, C1Token::Identifier), ks, C1Token::Assign) {
        Outcome::Accepted { next } => assignment(ks, next),
        rejected => rejected,
    }
}

/// `"printf" "(" assignment ")"`
pub open spec fn printf(ks: Seq<C1Token>, i: int) -> Outcome
    decreases ks.len() - i, 9int,
{
    match then_expect(expect(ks, i, C1Token::KwPrintf), ks, C1Token::LeftParenthesis) {
        Outcome::Accepted { next } => then_expect(
            assignment(ks, next),
            ks,
            C1Token::RightParenthesis,
        ),
        rejected => rejected,
    }
}

/// `"return" ( assignment )?`
///
/// The assignment is left out where the text ends or a `;` comes after `return`.
pub open spec fn return_statement(ks: Seq<C1Token>, i: int) -> Outcome
    decreases ks.len() - i, 9int,
{
    match expect(ks, i, C1Token::KwReturn) {
        Outcome::Accepted { next } => if !exists_at(ks, next) || ks[next]
            == C1Token::Semicolon {
            Outcome::Accepted { next }
        } else {
            assignment(ks, next)
        },
        rejected => rejected,
    }
}

/// `ifstatement ::= "if" "(" assignment ")" block`
pub open spec fn if_statement(ks: Seq<C1Token>, i: int) -> Outcome
    decreases ks.len() - i, 9int,
{
    match then_expect(expect(ks, i, C1Token::KwIf), ks, C1Token::LeftParenthesis) {
        Outcome::Accepted { next } => match then_expect(
            assignment(ks, next),
            ks,
            C1Token::RightParenthesis,
        ) {
            Outcome::Accepted { next: body } => if i < body <= ks.len() {
                block(ks, body)
            } else {
                Outcome::Accepted { next: body }
            },
            rejected => rejected,
        },
        rejected => rejected,
    }
}

/// ```text
/// statement ::= ifstatement
///             | "return" ( assignment )? ";"
///             | "printf" "(" assignment ")" ";"
///             | ID "=" assignment ";"
///             | functioncall ";"
/// ```
///
/// The current token chooses the form. An identifier starts an assignment
/// where `=` follows it and a call otherwise.
pub open spec fn statement(ks: Seq<C1Token>, i: int) -> Outcome
    decreases ks.len() - i, 10int,
{
    if is_at(ks, i, C1Token::KwIf) {
        if_statement(ks, i)
    } else if is_at(ks, i, C1Token::KwReturn) {
        then_expect(return_statement(ks, i), ks, C1Token::Semicolon)
    } else if is_at(ks, i, C1Token::KwPrintf) {
        then_expect(printf(ks, i), ks, C1Token::Semicolon)
    } else if is_at(ks, i, C1Token::Identifier) {
        if is_at(ks, i + 1, C1Token::Assign) {
            then_expect(stat_assignment(ks, i), ks, C1Token::Semicolon)
        } else {
            then_expect(function_call(ks, i), ks, C1Token::Semicolon)
        }
    } else {
        Outcome::Rejected { reason: Reason::EmptyStatement, at: i }
    }
}

/// `block ::= "{" statementlist "}" | statement`
pub open spec fn block(ks: Seq<C1Token>, i: int) -> Outcome
    decreases ks.len() - i, 11int,
{
    if is_at(ks, i, C1Token::LeftBrace) {
        then_expect(statement_list(ks, i + 1), ks, C1Token::RightBrace)
    } else {
        statement(ks, i)
    }
}

/// `statementlist ::= ( block )*`
///
/// The list ends where the text ends or a `}` is current.
pub open spec fn statement_list(ks: Seq<C1Token>, i: int) -> Outcome
    decreases ks.len() - i, 12int,
{
    if !exists_at(ks, i) || ks[i] == C1Token::RightBrace {
        Outcome::Accepted { next: i }
    } else {
        match block(ks, i) {
            Outcome::Accepted { next } => if i < next <= ks.len() {
                statement_list(ks, next)
            } else {
                Outcome::Accepted { next }
            },
            rejected => rejected,
        }
    }
}

/// The head of a function definition, up to the `{` that opens its body:
/// `returntype ID "(" ")" "{"`
pub open spec fn function_head(ks: Seq<C1Token>, i: int) -> Outcome {
    then_expect(
        then_expect(
            then_expect(
                then_expect(return_type(ks, i), ks, C1Token::Identifier),
                ks,
                C1Token::LeftParenthesis,
            ),
            ks,
            C1Token::RightParenthesis,
        ),
        ks,
        C1Token::LeftBrace,
    )
}

/// `functiondefinition ::= returntype ID "(" ")" "{" statementlist "}"`
pub open spec fn function_definition(ks: Seq<C1Token>, i: int) -> Outcome {
    match function_head(ks, i) {
        Outcome::Accepted { next } => then_expect(
            statement_list(ks, next),
            ks,
            C1Token::RightBrace,
        ),
        rejected => rejected,
    }
}

/// `program ::= ( functiondefinition )*`
///
/// Function definitions are taken for as long as a token is current.
pub open spec fn program(ks: Seq<C1Token>, i: int) -> Outcome
    decreases ks.len() - i,
{
    if !exists_at(ks, i) {
        Outcome::Accepted { next: i }
    } else {
        match function_definition(ks, i) {
            Outcome::Accepted { next } => if i < next <= ks.len() {
                program(ks, next)
            } else {
                Outcome::Accepted { next }
            },
            rejected => rejected,
        }
    }
}

/// A routine that started at `i` and ended with `o` went forward by at least
/// `least` tokens, and stopped inside the sequence or at its end.
pub open spec fn advances(ks: Seq<C1Token>, i: int, o: Outcome, least: int) -> bool {
    match o {
        Outcome::Accepted { next } => i + least <= next <= ks.len(),
        Outcome::Rejected { reason, at } => i <= at <= ks.len(),
    }
}

/// `factor` does not go back and does not stop past the end.
pub(crate) proof fn progress_factor(ks: Seq<C1Token>, i: int)
    requires
        0 <= i <= ks.len(),
    ensures
        advances(ks, i, factor(ks, i), 1),
    decreases ks.len() - i, 1int,
{
    if is_at(ks, i, C1Token::LeftParenthesis) {
        progress_assignment(ks, i + 1);
    }
}

/// `term_tail` does not go back and does not stop past the end.
pub(crate) proof fn progress_term_tail(ks: Seq<C1Token>, i: int)
    requires
        0 <= i <= ks.len(),
    ensures
        advances(ks, i, term_tail(ks, i), 0),
    decreases ks.len() - i, 2int,
{
    if exists_at(ks, i) && ks[i].is_multiplicative() {
        progress_factor(ks, i + 1);
        if let Outcome::Accepted { next } = factor(ks, i + 1) {
            progress_term_tail(ks, next);
        }
    }
}

/// `term` does not go back and does not stop past the end.
pub(crate) proof fn progress_term(ks: Seq<C1Token>, i: int)
    requires
        0 <= i <= ks.len(),
    ensures
        advances(ks, i, term(ks, i), 1),
    decreases ks.len() - i, 3int,
{
    progress_factor(ks, i);
    if let Outcome::Accepted { next } = factor(ks, i) {
        progress_term_tail(ks, next);
    }
}

/// `simpexpr_tail` does not go back and does not stop past the end.
pub(crate) proof fn progress_simpexpr_tail(ks: Seq<C1Token>, i: int)
    requires
        0 <= i <= ks.len(),
    ensures
        advances(ks, i, simpexpr_tail(ks, i), 0),
    decreases ks.len() - i, 4int,
{
    if exists_at(ks, i) && ks[i].is_additive() {
        progress_term(ks, i + 1);
        if let Outcome::Accepted { next } = term(ks, i + 1) {
            progress_simpexpr_tail(ks, next);
        }
    }
}

/// `sum` does not go back and does not stop past the end.
pub(crate) proof fn progress_sum(ks: Seq<C1Token>, i: int)
    requires
        0 <= i <= ks.len(),
    ensures
        advances(ks, i, sum(ks, i), 1),
    decreases ks.len() - i, 5int,
{
    progress_term(ks, i);
    if let Outcome::Accepted { next } = term(ks, i) {
        progress_simpexpr_tail(ks, next);
    }
}

/// `simpexpr` does not go back and does not stop past the end.
pub(crate) proof fn progress_simpexpr(ks: Seq<C1Token>, i: int)
    requires
        0 <= i <= ks.len(),
    ensures
        advances(ks, i, simpexpr(ks, i), 1),
    decreases ks.len() - i, 6int,
{
    if is_at(ks, i, C1Token::Minus) {
        progress_sum(ks, i + 1);
    } else {
        progress_sum(ks, i);
    }
}

/// `expr` does not go back and does not stop past the end.
pub(crate) proof fn progress_expr(ks: Seq<C1Token>, i: int)
    requires
        0 <= i <= ks.len(),
    ensures
        advances(ks, i, expr(ks, i), 1),
    decreases ks.len() - i, 7int,
{
    progress_simpexpr(ks, i);
    if let Outcome::Accepted { next } = simpexpr(ks, i) {
        if exists_at(ks, next) {
            progress_simpexpr(ks, next + 1);
        }
    }
}

/// `assignment` does not go back and does not stop past the end.
pub(crate) proof fn progress_assignment(ks: Seq<C1Token>, i: int)
    requires
        0 <= i <= ks.len(),
    ensures
        advances(ks, i, assignment(ks, i), 1),
    decreases ks.len() - i, 8int,
{
    if is_at(ks, i, C1Token::Identifier) && is_at(ks, i + 1, C1Token::Assign) {
        progress_assignment(ks, i + 2);
    } else {
        progress_expr(ks, i);
    }
}

/// `if_statement` does not go back and does not stop past the end.
pub(crate) proof fn progress_if_statement(ks: Seq<C1Token>, i: int)
    requires
        0 <= i <= ks.len(),
    ensures
        advances(ks, i, if_statement(ks, i), 4),
    decreases ks.len() - i, 9int,
{
    if is_at(ks, i, C1Token::KwIf) && is_at(ks, i + 1, C1Token::LeftParenthesis) {
        progress_assignment(ks, i + 2);
        if let Outcome::Accepted { next } = then_expect(
            assignment(ks, i + 2),
            ks,
            C1Token::RightParenthesis,
        ) {
            progress_block(ks, next);
        }
    }
}

/// `statement` does not go back and does not stop past the end.
pub(crate) proof fn progress_statement(ks: Seq<C1Token>, i: int)
    requires
        0 <= i <= ks.len(),
    ensures
        advances(ks, i, statement(ks, i), 2),
        advances(ks, i, stat_assignment(ks, i), 3),
        advances(ks, i, printf(ks, i), 4),
        advances(ks, i, return_statement(ks, i), 1),
    decreases ks.len() - i, 10int,
{
    progress_if_statement(ks, i);
    if i < ks.len() {
        progress_assignment(ks, i + 1);
    }
    if i + 1 < ks.len() {
        progress_assignment(ks, i + 2);
    }
}

/// `block` does not go back and does not stop past the end.
pub(crate) proof fn progress_block(ks: Seq<C1Token>, i: int)
    requires
        0 <= i <= ks.len(),
    ensures
        advances(ks, i, block(ks, i), 2),
    decreases ks.len() - i, 11int,
{
    if is_at(ks, i, C1Token::LeftBrace) {
        progress_statement_list(ks, i + 1);
    } else {
        progress_statement(ks, i);
    }
}

/// `statement_list` does not go back and does not stop past the end.
pub(crate) proof fn progress_statement_list(ks: Seq<C1Token>, i: int)
    requires
        0 <= i <= ks.len(),
    ensures
        advances(ks, i, statement_list(ks, i), 0),
    decreases ks.len() - i, 12int,
{
    if !(!exists_at(ks, i) || ks[i] == C1Token::RightBrace) {
        progress_block(ks, i);
        if let Outcome::Accepted { next } = block(ks, i) {
            progress_statement_list(ks, next);
        }
    }
}

/// `function_definition` does not go back and does not stop past the end.
pub(crate) proof fn progress_function_definition(ks: Seq<C1Token>, i: int)
    requires
        0 <= i <= ks.len(),
    ensures
        advances(ks, i, function_head(ks, i), 5),
        advances(ks, i, function_definition(ks, i), 6),
{
    if let Outcome::Accepted { next } = function_head(ks, i) {
        progress_statement_list(ks, next);
    }
}

/// `program` does not go back and does not stop past the end.
pub(crate) proof fn progress_program(ks: Seq<C1Token>, i: int)
    requires
        0 <= i <= ks.len(),
    ensures
        advances(ks, i, program(ks, i), 0),
    decreases ks.len() - i,
{
    if exists_at(ks, i) {
        progress_function_definition(ks, i);
        if let Outcome::Accepted { next } = function_definition(ks, i) {
            progress_program(ks, next);
        }
    }
}

/// No routine goes back, none stops past the end, and each one that takes at
/// least one token in every form ends, where it accepts, past where it started.
pub proof fn lemma_progress(ks: Seq<C1Token>, i: int)
    requires
        0 <= i <= ks.len(),
    ensures
        advances(ks, i, return_type(ks, i), 1),
        advances(ks, i, function_call(ks, i), 3),
        advances(ks, i, factor(ks, i), 1),
        advances(ks, i, term_tail(ks, i), 0),
        advances(ks, i, term(ks, i), 1),
        advances(ks, i, simpexpr_tail(ks, i), 0),
        advances(ks, i, sum(ks, i), 1),
        advances(ks, i, simpexpr(ks, i), 1),
        advances(ks, i, expr(ks, i), 1),
        advances(ks, i, assignment(ks, i), 1),
        advances(ks, i, stat_assignment(ks, i), 3),
        advances(ks, i, printf(ks, i), 4),
        advances(ks, i, return_statement(ks, i), 1),
        advances(ks, i, if_statement(ks, i), 4),
        advances(ks, i, statement(ks, i), 2),
        advances(ks, i, block(ks, i), 2),
        advances(ks, i, statement_list(ks, i), 0),
        advances(ks, i, function_head(ks, i), 5),
        advances(ks, i, function_definition(ks, i), 6),
        advances(ks, i, program(ks, i), 0),
{
    progress_factor(ks, i);
    progress_term_tail(ks, i);
    progress_term(ks, i);
    progress_simpexpr_tail(ks, i);
    progress_sum(ks, i);
    progress_simpexpr(ks, i);
    progress_expr(ks, i);
    progress_assignment(ks, i);
    progress_if_statement(ks, i);
    progress_statement(ks, i);
    progress_block(ks, i);
    progress_statement_list(ks, i);
    progress_function_definition(ks, i);
    progress_program(ks, i);
}

} // verus!
