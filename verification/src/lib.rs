//! A syntax recognizer for the C1 language: a scanner, a two-token lookahead
//! buffer and a predictive recursive-descent grammar engine.
//!
//! [`C1Parser::parse`] decides whether a text is a C1 program. [`C1Lexer`]
//! gives the tokens of a text, two at a time. The routines of [`C1Parser`]
//! recognize single phrases.
//!
//! The modules fall in three groups.
//!
//! - The executable code: `bytes` and `lexeme` find the lexeme at a position,
//!   `scanner` walks over a text, `lexer` holds two tokens at hand, `parser`
//!   is the grammar engine, `message` writes its diagnostics.
//! - What the code is held to: `patterns` states the form of each lexeme,
//!   `grammar` the phrases of each nonterminal, `recognizer` what each
//!   routine does on a sequence of tokens.
//! - What is proved of it: `patterns` (longest match and priority), `lines`
//!   (line numbers), `soundness` and `completeness` (the engine accepts the
//!   programs and nothing else), `refusal`, `frame` and `continuation` (the
//!   refused token is the first one at which the text leaves the grammar).

pub mod bytes;
pub mod completeness;
pub mod continuation;
pub mod frame;
pub mod grammar;
pub mod lexeme;
pub mod lexer;
pub mod lines;
pub mod message;
pub mod parser;
pub mod patterns;
pub mod recognizer;
pub mod refusal;
pub mod scanner;
pub mod soundness;
pub mod token;

pub use lexer::C1Lexer;
pub use parser::{C1Parser, ParseResult};
pub use token::C1Token;
