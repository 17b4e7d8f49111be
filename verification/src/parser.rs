//! The grammar engine: one routine for each nonterminal of the C1 grammar.
//!
//! The contract of a routine says what the routine does by the function of
//! the same name in `recognizer`: up to which token it reads, and which token
//! it refuses. The modules `soundness` and `completeness` show that these
//! functions accept the phrases of the grammar and nothing else.

use crate::completeness::lemma_accepts_exactly_the_programs;
use crate::grammar::{
    is_assignment, is_block, is_expr, is_factor, is_function_call, is_function_definition,
    is_if_statement, is_program, is_simpexpr, is_statement, is_statement_list, is_term,
};
use crate::lexer::C1Lexer;
use crate::message::{decimal_string, failure_message, reason_text};
use crate::recognizer;
use crate::recognizer::{exists_at, is_at, lemma_progress, Outcome};
use crate::scanner::{kinds, token_stream, Token};
use crate::soundness::{
    sound_assignment, sound_block, sound_expr, sound_factor, sound_function_definition,
    sound_if_statement, sound_simpexpr, sound_statement, sound_statement_list, sound_term,
};
use crate::token::C1Token;
use vstd::prelude::*;
use vstd::string::{StringExecFns, StringSliceAdditionalSpecFns};
use vstd::utf8::encode_utf8_decode_utf8;

verus! {

/// Success, or the diagnostic of the first token that a routine could not take.
pub type ParseResult = Result<(), String>;

/// A recognizer for C1 programs and for their parts.
pub struct C1Parser<'a>(C1Lexer<'a>);

/// The parser hands out its lexer, so that the current token and the one after
/// it can be inspected, and consumed, between two routines.
impl<'a> core::ops::Deref for C1Parser<'a> {
    type Target = C1Lexer<'a>;

    fn deref(&self) -> (r: &C1Lexer<'a>)
        ensures
            *r == self.lexer(),
    {
        &self.0
    }
}

impl<'a> core::ops::DerefMut for C1Parser<'a> {
    fn deref_mut(&mut self) -> (r: &mut C1Lexer<'a>)
        ensures
            *r == old(self).lexer(),
            final(self).lexer() == *final(r),
    {
        &mut self.0
    }
}

/// The routine that ran from `before` to `after` and returned `r` ended as `o`
/// says: it consumed the tokens up to the index that `o` names, and where `o`
/// is a refusal, `r` holds the diagnostic of the refused token.
pub open spec fn reports<'a>(
    before: C1Parser<'a>,
    after: C1Parser<'a>,
    r: ParseResult,
    o: Outcome,
) -> bool {
    &&& after.wf()
    &&& after.source() == before.source()
    &&& match o {
        Outcome::Accepted { next } => r is Ok && after.index() == next,
        Outcome::Rejected { reason, at } => r is Err && r->Err_0@ == failure_message(
            before.tokens(),
            reason_text(reason),
            at,
        ) && after.index() == at,
    }
}

/// How the parse of the text `s` ends.
pub open spec fn parse_outcome(s: Seq<u8>) -> Outcome {
    recognizer::program(kinds(token_stream(s)), 0)
}

/// What the parse of the text `s` returns: success, or the diagnostic of the
/// first token that the grammar engine could not take.
pub open spec fn parse_result(s: Seq<u8>) -> Result<(), Seq<char>> {
    match parse_outcome(s) {
        Outcome::Accepted { next } => Ok(()),
        Outcome::Rejected { reason, at } => Err(
            failure_message(token_stream(s), reason_text(reason), at),
        ),
    }
}

/// A result with its diagnostic taken as a sequence of characters.
pub open spec fn result_view(r: ParseResult) -> Result<(), Seq<char>> {
    match r {
        Ok(_) => Ok(()),
        Err(message) => Err(message@),
    }
}

/// Two parses of one text end alike: whatever `parse` may return on a text,
/// it returns each time.
pub proof fn lemma_parse_is_repeatable(text: &str, first: ParseResult, second: ParseResult)
    requires
        result_view(first) == parse_result(text.spec_bytes()),
        result_view(second) == parse_result(text.spec_bytes()),
    ensures
        result_view(first) == result_view(second),
{
}

impl<'a> C1Parser<'a> {
    /// The lexer that the parser reads from.
    pub closed spec fn lexer(&self) -> C1Lexer<'a> {
        self.0
    }

    /// The lexer is well formed.
    pub open spec fn wf(&self) -> bool {
        self.lexer().wf()
    }

    /// The bytes of the text that is parsed.
    pub open spec fn source(&self) -> Seq<u8> {
        self.lexer().source()
    }

    /// All tokens of the text.
    pub open spec fn tokens(&self) -> Seq<Token> {
        self.lexer().tokens()
    }

    /// The categories of all tokens of the text.
    pub open spec fn kinds(&self) -> Seq<C1Token> {
        kinds(self.tokens())
    }

    /// The index of the current token.
    pub open spec fn index(&self) -> int {
        self.lexer().index()
    }

    /// Decides whether `text` is a C1 program.
    ///
    /// Returns `Ok` if and only if the tokens of `text` form a program. Where
    /// they do not, the diagnostic names the first token that the grammar
    /// engine could not take, or says that the text ended too early.
    pub fn parse(text: &str) -> (r: ParseResult)
        ensures
            r is Ok <==> is_program(kinds(token_stream(text.spec_bytes()))),
            result_view(r) == parse_result(text.spec_bytes()),
    {
        proof {
            lemma_accepts_exactly_the_programs(kinds(token_stream(text.spec_bytes())));
        }
        let mut parser = C1Parser::initialize_parser(text);
        parser.program()
    }

    /// A parser at the start of `text`.
    pub fn initialize_parser(text: &'a str) -> (parser: C1Parser<'a>)
        ensures
            parser.wf(),
            parser.source() == text.spec_bytes(),
            parser.index() == 0,
    {
        C1Parser(C1Lexer::new(text))
    }

    /// Takes the current token if it has the category `token`.
    pub fn expect_token(&mut self, token: C1Token) -> (r: ParseResult)
        requires
            old(self).wf(),
        ensures
            reports(
                *old(self),
                *final(self),
                r,
                recognizer::expect(old(self).kinds(), old(self).index(), token),
            ),
    {
        if self.current_matches(&token) {
            self.eat();
            Ok(())
        } else {
            Err(self.error_message_current("unexpected token"))
        }
    }

    /// `functioncall ::= ID "(" ")"`
    pub fn function_call(&mut self) -> (r: ParseResult)
        requires
            old(self).wf(),
        ensures
            reports(
                *old(self),
                *final(self),
                r,
                recognizer::function_call(old(self).kinds(), old(self).index()),
            ),
            r is Ok ==> is_function_call(old(self).kinds(), old(self).index(), final(self).index()),
    {
        self.expect_token(C1Token::Identifier)?;
        self.expect_token(C1Token::LeftParenthesis)?;
        self.expect_token(C1Token::RightParenthesis)?;
        Ok(())
    }

    /// `returntype ::= "bool" | "float" | "int" | "void"`
    pub fn return_type(&mut self) -> (r: ParseResult)
        requires
            old(self).wf(),
        ensures
            reports(
                *old(self),
                *final(self),
                r,
                recognizer::return_type(old(self).kinds(), old(self).index()),
            ),
    {
        let types = [C1Token::KwBoolean, C1Token::KwFloat, C1Token::KwInt, C1Token::KwVoid];
        let message = self.error_message_current("unexpected type");
        proof {
            let k = self.kinds()[self.index()];
            assert(types@.contains(k) <==> k.is_return_type()) by {
                assert(types@[0] == C1Token::KwBoolean && types@[1] == C1Token::KwFloat
                    && types@[2] == C1Token::KwInt && types@[3] == C1Token::KwVoid);
            }
        }
        self.any_match_and_eat(types.as_slice(), message.as_str())
    }

    /// `factor ::= ConstInt | ConstFloat | ConstBoolean | functioncall | ID | "(" assignment ")"`
    pub fn factor(&mut self) -> (r: ParseResult)
        requires
            old(self).wf(),
        ensures
            reports(
                *old(self),
                *final(self),
                r,
                recognizer::factor(old(self).kinds(), old(self).index()),
            ),
            r is Ok ==> is_factor(old(self).kinds(), old(self).index(), final(self).index()),
        decreases old(self).kinds().len() - old(self).index(), 1int,
    {
        proof {
            self.0.lemma_index_in_range();
            let outcome = recognizer::factor(self.kinds(), self.index());
            if outcome is Accepted {
                sound_factor(self.kinds(), self.index(), outcome->next);
            }
        }
        let literals = [C1Token::ConstInt, C1Token::ConstFloat, C1Token::ConstBoolean];
        proof {
            let k = self.kinds()[self.index()];
            assert(literals@.contains(k) <==> k.is_literal()) by {
                assert(literals@[0] == C1Token::ConstInt && literals@[1] == C1Token::ConstFloat
                    && literals@[2] == C1Token::ConstBoolean);
            }
        }
        if self.any_match_current(literals.as_slice()) {
            self.eat();
            return Ok(());
        }
        if self.current_matches(&C1Token::Identifier) {
            if self.next_matches(&C1Token::LeftParenthesis) {
                self.function_call()
            } else {
                self.eat();
                Ok(())
            }
        } else {
            self.expect_token(C1Token::LeftParenthesis)?;
            self.assignment()?;
            self.expect_token(C1Token::RightParenthesis)?;
            Ok(())
        }
    }

    /// `term ::= factor ( ("*"|"/"|"&&") factor )*`
    pub fn term(&mut self) -> (r: ParseResult)
        requires
            old(self).wf(),
        ensures
            reports(
                *old(self),
                *final(self),
                r,
                recognizer::term(old(self).kinds(), old(self).index()),
            ),
            r is Ok ==> is_term(old(self).kinds(), old(self).index(), final(self).index()),
        decreases old(self).kinds().len() - old(self).index(), 3int,
    {
        proof {
            self.0.lemma_index_in_range();
            let outcome = recognizer::term(self.kinds(), self.index());
            if outcome is Accepted {
                sound_term(self.kinds(), self.index(), outcome->next);
            }
        }
        let ghost ks = self.kinds();
        let ghost start = self.index();
        let operators = [C1Token::Asterisk, C1Token::Slash, C1Token::And];
        proof {
            lemma_progress(ks, start);
            assert(operators@[0] == C1Token::Asterisk && operators@[1] == C1Token::Slash
                && operators@[2] == C1Token::And);
        }
        self.factor()?;
        while self.any_match_current(operators.as_slice())
            invariant
                self.wf(),
                self.source() == old(self).source(),
                ks == self.kinds(),
                ks == old(self).kinds(),
                start == old(self).index(),
                start <= self.index() <= ks.len(),
                recognizer::term_tail(ks, self.index()) == recognizer::term(ks, start),
                forall|k: C1Token| operators@.contains(k) <==> k.is_multiplicative(),
            decreases ks.len() - self.index(),
        {
            proof {
                lemma_progress(ks, self.index() + 1);
            }
            self.eat();
            self.factor()?;
        }
        Ok(())
    }

    /// `simpexpr ::= ("-")? term ( ("+"|"-"|"||") term )*`
    pub fn simpexpr(&mut self) -> (r: ParseResult)
        requires
            old(self).wf(),
        ensures
            reports(
                *old(self),
                *final(self),
                r,
                recognizer::simpexpr(old(self).kinds(), old(self).index()),
            ),
            r is Ok ==> is_simpexpr(old(self).kinds(), old(self).index(), final(self).index()),
        decreases old(self).kinds().len() - old(self).index(), 5int,
    {
        proof {
            self.0.lemma_index_in_range();
            let outcome = recognizer::simpexpr(self.kinds(), self.index());
            if outcome is Accepted {
                sound_simpexpr(self.kinds(), self.index(), outcome->next);
            }
        }
        let ghost ks = self.kinds();
        let ghost start = self.index();
        let operators = [C1Token::Plus, C1Token::Minus, C1Token::Or];
        proof {
            assert(operators@[0] == C1Token::Plus && operators@[1] == C1Token::Minus
                && operators@[2] == C1Token::Or);
        }
        if self.current_matches(&C1Token::Minus) {
            self.eat();
        }
        proof {
            lemma_progress(ks, self.index());
        }
        self.term()?;
        while self.any_match_current(operators.as_slice())
            invariant
                self.wf(),
                self.source() == old(self).source(),
                ks == self.kinds(),
                ks == old(self).kinds(),
                start == old(self).index(),
                start <= self.index() <= ks.len(),
                recognizer::simpexpr_tail(ks, self.index()) == recognizer::simpexpr(ks, start),
                forall|k: C1Token| operators@.contains(k) <==> k.is_additive(),
            decreases ks.len() - self.index(),
        {
            proof {
                lemma_progress(ks, self.index() + 1);
            }
            self.eat();
            self.term()?;
        }
        Ok(())
    }

    /// `expr ::= simpexpr ( ("=="|"!="|"<="|">="|"<"|">") simpexpr )?`
    pub fn expr(&mut self) -> (r: ParseResult)
        requires
            old(self).wf(),
        ensures
            reports(
                *old(self),
                *final(self),
                r,
                recognizer::expr(old(self).kinds(), old(self).index()),
            ),
            r is Ok ==> is_expr(old(self).kinds(), old(self).index(), final(self).index()),
        decreases old(self).kinds().len() - old(self).index(), 6int,
    {
        proof {
            self.0.lemma_index_in_range();
            let outcome = recognizer::expr(self.kinds(), self.index());
            if outcome is Accepted {
                sound_expr(self.kinds(), self.index(), outcome->next);
            }
        }
        let ghost ks = self.kinds();
        let operators = [
            C1Token::Equal,
            C1Token::NotEqual,
            C1Token::Less,
            C1Token::Greater,
            C1Token::LessEqual,
            C1Token::GreaterEqual,
        ];
        proof {
            lemma_progress(ks, self.index());
            assert(operators@[0] == C1Token::Equal && operators@[1] == C1Token::NotEqual
                && operators@[2] == C1Token::Less && operators@[3] == C1Token::Greater
                && operators@[4] == C1Token::LessEqual && operators@[5]
                == C1Token::GreaterEqual);
            assert(forall|k: C1Token| operators@.contains(k) <==> k.is_relational());
        }
        self.simpexpr()?;
        if self.any_match_current(operators.as_slice()) {
            self.eat();
            self.simpexpr()
        } else {
            Ok(())
        }
    }

    /// `assignment ::= ( ID "=" assignment ) | expr`
    pub fn assignment(&mut self) -> (r: ParseResult)
        requires
            old(self).wf(),
        ensures
            reports(
                *old(self),
                *final(self),
                r,
                recognizer::assignment(old(self).kinds(), old(self).index()),
            ),
            r is Ok ==> is_assignment(old(self).kinds(), old(self).index(), final(self).index()),
        decreases old(self).kinds().len() - old(self).index(), 7int,
    {
        proof {
            self.0.lemma_index_in_range();
            let outcome = recognizer::assignment(self.kinds(), self.index());
            if outcome is Accepted {
                sound_assignment(self.kinds(), self.index(), outcome->next);
            }
        }
        if self.current_matches(&C1Token::Identifier) && self.next_matches(&C1Token::Assign) {
            self.eat();
            self.eat();
            self.assignment()
        } else {
            self.expr()
        }
    }

    /// `ID "=" assignment`, the assignment that stands as a statement.
    pub fn stat_assignment(&mut self) -> (r: ParseResult)
        requires
            old(self).wf(),
        ensures
            reports(
                *old(self),
                *final(self),
                r,
                recognizer::stat_assignment(old(self).kinds(), old(self).index()),
            ),
        decreases old(self).kinds().len() - old(self).index(), 8int,
    {
        proof {
            self.0.lemma_index_in_range();
        }
        self.expect_token(C1Token::Identifier)?;
        self.expect_token(C1Token::Assign)?;
        self.assignment()
    }

    /// `"printf" "(" assignment ")"`
    pub fn printf(&mut self) -> (r: ParseResult)
        requires
            old(self).wf(),
        ensures
            reports(
                *old(self),
                *final(self),
                r,
                recognizer::printf(old(self).kinds(), old(self).index()),
            ),
        decreases old(self).kinds().len() - old(self).index(), 8int,
    {
        proof {
            self.0.lemma_index_in_range();
        }
        self.expect_token(C1Token::KwPrintf)?;
        self.expect_token(C1Token::LeftParenthesis)?;
        self.assignment()?;
        self.expect_token(C1Token::RightParenthesis)?;
        Ok(())
    }

    /// `"return" ( assignment )?`
    pub fn return_statement(&mut self) -> (r: ParseResult)
        requires
            old(self).wf(),
        ensures
            reports(
                *old(self),
                *final(self),
                r,
                recognizer::return_statement(old(self).kinds(), old(self).index()),
            ),
        decreases old(self).kinds().len() - old(self).index(), 8int,
    {
        proof {
            self.0.lemma_index_in_range();
        }
        self.expect_token(C1Token::KwReturn)?;
        if self.current_empty_or_matches(&C1Token::Semicolon) {
            Ok(())
        } else {
            self.assignment()
        }
    }

    /// `ifstatement ::= "if" "(" assignment ")" block`
    pub fn if_statement(&mut self) -> (r: ParseResult)
        requires
            old(self).wf(),
        ensures
            reports(
                *old(self),
                *final(self),
                r,
                recognizer::if_statement(old(self).kinds(), old(self).index()),
            ),
            r is Ok ==> is_if_statement(old(self).kinds(), old(self).index(), final(self).index()),
        decreases old(self).kinds().len() - old(self).index(), 8int,
    {
        proof {
            self.0.lemma_index_in_range();
            let outcome = recognizer::if_statement(self.kinds(), self.index());
            if outcome is Accepted {
                sound_if_statement(self.kinds(), self.index(), outcome->next);
            }
        }
        let ghost ks = self.kinds();
        self.expect_token(C1Token::KwIf)?;
        self.expect_token(C1Token::LeftParenthesis)?;
        proof {
            lemma_progress(ks, self.index());
        }
        self.assignment()?;
        self.expect_token(C1Token::RightParenthesis)?;
        self.block()?;
        Ok(())
    }

    /// ```text
    /// statement ::= ifstatement
    ///             | "return" ( assignment )? ";"
    ///             | "printf" "(" assignment ")" ";"
    ///             | ID "=" assignment ";"
    ///             | functioncall ";"
    /// ```
    pub fn statement(&mut self) -> (r: ParseResult)
        requires
            old(self).wf(),
        ensures
            reports(
                *old(self),
                *final(self),
                r,
                recognizer::statement(old(self).kinds(), old(self).index()),
            ),
            r is Ok ==> is_statement(old(self).kinds(), old(self).index(), final(self).index()),
        decreases old(self).kinds().len() - old(self).index(), 9int,
    {
        proof {
            self.0.lemma_index_in_range();
            let outcome = recognizer::statement(self.kinds(), self.index());
            if outcome is Accepted {
                sound_statement(self.kinds(), self.index(), outcome->next);
            }
        }
        if self.current_matches(&C1Token::KwIf) {
            self.if_statement()
        } else if self.current_matches(&C1Token::KwReturn) {
            self.return_statement()?;
            self.expect_token(C1Token::Semicolon)
        } else if self.current_matches(&C1Token::KwPrintf) {
            self.printf()?;
            self.expect_token(C1Token::Semicolon)
        } else if self.current_matches(&C1Token::Identifier) {
            if self.next_matches(&C1Token::Assign) {
                self.stat_assignment()?;
            } else {
                self.function_call()?;
            }
            self.expect_token(C1Token::Semicolon)
        } else {
            Err(self.error_message_current("empty statement"))
        }
    }

    /// `block ::= "{" statementlist "}" | statement`
    pub fn block(&mut self) -> (r: ParseResult)
        requires
            old(self).wf(),
        ensures
            reports(
                *old(self),
                *final(self),
                r,
                recognizer::block(old(self).kinds(), old(self).index()),
            ),
            r is Ok ==> is_block(old(self).kinds(), old(self).index(), final(self).index()),
        decreases old(self).kinds().len() - old(self).index(), 10int,
    {
        proof {
            self.0.lemma_index_in_range();
            let outcome = recognizer::block(self.kinds(), self.index());
            if outcome is Accepted {
                sound_block(self.kinds(), self.index(), outcome->next);
            }
        }
        if self.current_matches(&C1Token::LeftBrace) {
            self.eat();
            self.statement_list()?;
            self.expect_token(C1Token::RightBrace)
        } else {
            self.statement()
        }
    }

    /// `statementlist ::= ( block )*`
    pub fn statement_list(&mut self) -> (r: ParseResult)
        requires
            old(self).wf(),
        ensures
            reports(
                *old(self),
                *final(self),
                r,
                recognizer::statement_list(old(self).kinds(), old(self).index()),
            ),
            r is Ok ==> is_statement_list(old(self).kinds(), old(self).index(), final(self).index()),
        decreases old(self).kinds().len() - old(self).index(), 11int,
    {
        proof {
            self.0.lemma_index_in_range();
            let outcome = recognizer::statement_list(self.kinds(), self.index());
            if outcome is Accepted {
                sound_statement_list(self.kinds(), self.index(), outcome->next);
            }
        }
        let ghost ks = self.kinds();
        let ghost start = self.index();
        while !self.current_empty_or_matches(&C1Token::RightBrace)
            invariant
                self.wf(),
                self.source() == old(self).source(),
                ks == self.kinds(),
                ks == old(self).kinds(),
                start == old(self).index(),
                start <= self.index() <= ks.len(),
                recognizer::statement_list(ks, self.index()) == recognizer::statement_list(
                    ks,
                    start,
                ),
            decreases ks.len() - self.index(),
        {
            proof {
                lemma_progress(ks, self.index());
            }
            self.block()?;
        }
        Ok(())
    }

    /// `functiondefinition ::= returntype ID "(" ")" "{" statementlist "}"`
    pub fn function_definition(&mut self) -> (r: ParseResult)
        requires
            old(self).wf(),
        ensures
            reports(
                *old(self),
                *final(self),
                r,
                recognizer::function_definition(old(self).kinds(), old(self).index()),
            ),
            r is Ok ==> is_function_definition(old(self).kinds(), old(self).index(), final(self).index()),
    {
        proof {
            self.0.lemma_index_in_range();
            let outcome = recognizer::function_definition(self.kinds(), self.index());
            if outcome is Accepted {
                sound_function_definition(self.kinds(), self.index(), outcome->next);
            }
        }
        self.return_type()?;
        self.expect_token(C1Token::Identifier)?;
        self.expect_token(C1Token::LeftParenthesis)?;
        self.expect_token(C1Token::RightParenthesis)?;
        self.expect_token(C1Token::LeftBrace)?;
        self.statement_list()?;
        self.expect_token(C1Token::RightBrace)?;
        Ok(())
    }

    /// `program ::= ( functiondefinition )*`
    pub fn program(&mut self) -> (r: ParseResult)
        requires
            old(self).wf(),
        ensures
            reports(
                *old(self),
                *final(self),
                r,
                recognizer::program(old(self).kinds(), old(self).index()),
            ),
    {
        let ghost ks = self.kinds();
        let ghost start = self.index();
        proof {
            self.0.lemma_index_in_range();
        }
        while self.current_token().is_some()
            invariant
                self.wf(),
                self.source() == old(self).source(),
                ks == self.kinds(),
                ks == old(self).kinds(),
                start == old(self).index(),
                start <= self.index() <= ks.len(),
                recognizer::program(ks, self.index()) == recognizer::program(ks, start),
            decreases ks.len() - self.index(),
        {
            proof {
                lemma_progress(ks, self.index());
            }
            self.function_definition()?;
        }
        Ok(())
    }

    /// Takes the current token if it has the category `token`, and fails with
    /// `error_message` otherwise.
    fn check_and_eat_token(&mut self, token: &C1Token, error_message: &str) -> (r: ParseResult)
        requires
            old(self).wf(),
        ensures
            final(self).wf(),
            final(self).source() == old(self).source(),
            if is_at(old(self).kinds(), old(self).index(), *token) {
                r is Ok && final(self).index() == old(self).index() + 1
            } else {
                r is Err && r->Err_0@ == error_message@ && final(self).index() == old(
                    self,
                ).index()
            },
    {
        if self.current_matches(token) {
            self.eat();
            Ok(())
        } else {
            Err(String::from_str(error_message))
        }
    }

    /// Tests whether the current token has one of the categories in `token`.
    fn any_match_current(&self, token: &[C1Token]) -> (r: bool)
        requires
            self.wf(),
        ensures
            r == (exists_at(self.kinds(), self.index()) && token@.contains(
                self.kinds()[self.index()],
            )),
    {
        let mut k: usize = 0;
        while k < token.len()
            invariant
                self.wf(),
                k <= token.len(),
                forall|j: int| 0 <= j < k ==> !is_at(self.kinds(), self.index(), token@[j]),
            decreases token.len() - k,
        {
            if self.current_matches(&token[k]) {
                return true;
            }
            k = k + 1;
        }
        false
    }

    /// Takes the current token if it has one of the categories in `token`,
    /// and fails with `error_message` otherwise.
    fn any_match_and_eat(&mut self, token: &[C1Token], error_message: &str) -> (r: ParseResult)
        requires
            old(self).wf(),
        ensures
            final(self).wf(),
            final(self).source() == old(self).source(),
            if exists_at(old(self).kinds(), old(self).index()) && token@.contains(
                old(self).kinds()[old(self).index()],
            ) {
                r is Ok && final(self).index() == old(self).index() + 1
            } else {
                r is Err && r->Err_0@ == error_message@ && final(self).index() == old(
                    self,
                ).index()
            },
    {
        let mut k: usize = 0;
        while k < token.len()
            invariant
                self.wf(),
                self.source() == old(self).source(),
                self.index() == old(self).index(),
                k <= token.len(),
                forall|j: int| 0 <= j < k ==> !is_at(self.kinds(), self.index(), token@[j]),
            decreases token.len() - k,
        {
            if self.check_and_eat_token(&token[k], "").is_ok() {
                return Ok(());
            }
            k = k + 1;
        }
        Err(String::from_str(error_message))
    }

    /// Tests whether the current token has the category `token`.
    fn current_matches(&self, token: &C1Token) -> (r: bool)
        requires
            self.wf(),
        ensures
            r == is_at(self.kinds(), self.index(), *token),
    {
        proof {
            self.0.lemma_index_in_range();
        }
        match self.current_token() {
            None => false,
            Some(current) => current == *token,
        }
    }

    /// Tests whether the text has ended or the current token has the category `token`.
    fn current_empty_or_matches(&self, token: &C1Token) -> (r: bool)
        requires
            self.wf(),
        ensures
            r == (!exists_at(self.kinds(), self.index()) || self.kinds()[self.index()] == *token),
    {
        proof {
            self.0.lemma_index_in_range();
        }
        match self.current_token() {
            None => true,
            Some(current) => current == *token,
        }
    }

    /// Tests whether the token after the current one has the category `token`.
    fn next_matches(&self, token: &C1Token) -> (r: bool)
        requires
            self.wf(),
        ensures
            r == is_at(self.kinds(), self.index() + 1, *token),
    {
        proof {
            self.0.lemma_index_in_range();
        }
        match self.peek_token() {
            None => false,
            Some(next) => next == *token,
        }
    }

    /// The diagnostic for a refusal of the current token.
    fn error_message_current(&self, reason: &'static str) -> (message: String)
        requires
            self.wf(),
        ensures
            message@ == failure_message(self.tokens(), reason@, self.index()),
    {
        proof {
            self.0.lemma_index_in_range();
        }
        match self.current_token() {
            None => {
                let mut message = String::from_str(reason);
                message.append(". Reached EOF");
                message
            },
            Some(_) => {
                let line = self.current_line_number().unwrap();
                let text = self.current_text().unwrap();
                proof {
                    encode_utf8_decode_utf8(text@);
                }
                let mut message = String::from_str(reason);
                message.append(" at line ");
                message.append(decimal_string(line).as_str());
                message.append(" with text: '");
                message.append(text);
                message.append("'");
                message
            },
        }
    }
}

} // verus!
