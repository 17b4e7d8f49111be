//! The lexical categories of C1.

use vstd::prelude::*;

verus! {

/// The closed set of lexical categories.
///
/// `CComment`, `CPPComment` and `Whitespace` are discarded by the scanner and
/// `Linebreak` only advances the line counter; none of the four is ever handed
/// to the grammar engine.
#[derive(Clone, Copy, Debug, PartialEq, Eq, Structural)]
pub enum C1Token {
    KwBoolean,
    KwDo,
    KwElse,
    KwFloat,
    KwFor,
    KwIf,
    KwInt,
    KwPrintf,
    KwReturn,
    KwVoid,
    KwWhile,
    Plus,
    Minus,
    Asterisk,
    Slash,
    /// `=`
    Assign,
    /// `==`
    Equal,
    /// `!=`
    NotEqual,
    /// `<`
    Less,
    /// `>`
    Greater,
    /// `<=`
    LessEqual,
    /// `>=`
    GreaterEqual,
    /// `&&`
    And,
    /// `||`
    Or,
    Comma,
    Semicolon,
    /// `(`
    LeftParenthesis,
    /// `)`
    RightParenthesis,
    /// `{`
    LeftBrace,
    /// `}`
    RightBrace,
    ConstInt,
    ConstFloat,
    ConstBoolean,
    ConstString,
    Identifier,
    CComment,
    CPPComment,
    Whitespace,
    Linebreak,
    Error,
}

impl C1Token {
    /// True of the eleven keywords.
    pub open spec fn is_keyword(self) -> bool {
        self == C1Token::KwBoolean || self == C1Token::KwDo || self == C1Token::KwElse || self
            == C1Token::KwFloat || self == C1Token::KwFor || self == C1Token::KwIf || self
            == C1Token::KwInt || self == C1Token::KwPrintf || self == C1Token::KwReturn || self
            == C1Token::KwVoid || self == C1Token::KwWhile
    }

    /// True of the categories that the scanner drops without producing a token.
    pub open spec fn is_trivia(self) -> bool {
        self == C1Token::CComment || self == C1Token::CPPComment || self == C1Token::Whitespace
            || self == C1Token::Linebreak
    }

    /// `==`, `!=`, `<=`, `>=`, `<` or `>`.
    pub open spec fn is_relational(self) -> bool {
        self == C1Token::Equal || self == C1Token::NotEqual || self == C1Token::LessEqual
            || self == C1Token::GreaterEqual || self == C1Token::Less || self == C1Token::Greater
    }

    /// `+`, `-` or `||`.
    pub open spec fn is_additive(self) -> bool {
        self == C1Token::Plus || self == C1Token::Minus || self == C1Token::Or
    }

    /// `*`, `/` or `&&`.
    pub open spec fn is_multiplicative(self) -> bool {
        self == C1Token::Asterisk || self == C1Token::Slash || self == C1Token::And
    }

    /// `bool`, `float`, `int` or `void`.
    pub open spec fn is_return_type(self) -> bool {
        self == C1Token::KwBoolean || self == C1Token::KwFloat || self == C1Token::KwInt
            || self == C1Token::KwVoid
    }

    /// `ConstInt`, `ConstFloat` or `ConstBoolean`.
    pub open spec fn is_literal(self) -> bool {
        self == C1Token::ConstInt || self == C1Token::ConstFloat || self == C1Token::ConstBoolean
    }
}

} // verus!
