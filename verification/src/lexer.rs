//! The lookahead buffer: the scanner's tokens, seen two at a time.

use crate::scanner::{token_stream, Scanner, Token, TokenData};
use crate::token::C1Token;
use vstd::prelude::*;
use vstd::string::StringSliceAdditionalSpecFns;

verus! {

/// The token that a buffer slot holds, as a sequence of length zero or one.
pub open spec fn buffered<'a>(slot: Option<TokenData<'a>>) -> Seq<Token> {
    match slot {
        Some(data) => seq![data@],
        None => Seq::empty(),
    }
}

/// A lexer that keeps the current token and the one after it at hand.
///
/// Its model is the sequence `tokens()` of all tokens of the text, which never
/// changes, and the number `index()` of tokens consumed so far. The current
/// token is `tokens()[index()]`, the next one `tokens()[index() + 1]`; each is
/// absent past the end.
pub struct C1Lexer<'a> {
    scanner: Scanner<'a>,
    current_token: Option<TokenData<'a>>,
    peek_token: Option<TokenData<'a>>,
}

impl<'a> C1Lexer<'a> {
    /// The bytes of the text that is being read.
    pub closed spec fn source(&self) -> Seq<u8> {
        self.scanner.source()
    }

    /// All tokens of the text.
    pub open spec fn tokens(&self) -> Seq<Token> {
        token_stream(self.source())
    }

    /// The tokens not consumed yet: the two buffered ones and those that the
    /// scanner still holds.
    pub closed spec fn pending(&self) -> Seq<Token> {
        buffered(self.current_token) + buffered(self.peek_token) + self.scanner.remaining()
    }

    /// The number of tokens consumed so far.
    pub open spec fn index(&self) -> int {
        self.tokens().len() - self.pending().len()
    }

    /// The buffer is filled from the front, and what is pending is the rest
    /// of the text's tokens.
    pub closed spec fn wf(&self) -> bool {
        &&& self.scanner.wf()
        &&& self.current_token is None ==> self.peek_token is None
        &&& self.peek_token is None ==> self.scanner.remaining().len() == 0
        &&& self.pending().len() <= self.tokens().len()
        &&& self.pending() =~= self.tokens().skip(self.index())
    }

    /// The current token: the first one not consumed yet.
    pub open spec fn current(&self) -> Option<Token> {
        if 0 <= self.index() < self.tokens().len() {
            Some(self.tokens()[self.index()])
        } else {
            None
        }
    }

    /// The token after the current one.
    pub open spec fn peek(&self) -> Option<Token> {
        if 0 <= self.index() + 1 < self.tokens().len() {
            Some(self.tokens()[self.index() + 1])
        } else {
            None
        }
    }

    /// The number of tokens consumed lies between zero and the number of tokens.
    pub proof fn lemma_index_in_range(&self)
        requires
            self.wf(),
        ensures
            0 <= self.index() <= self.tokens().len(),
    {
    }

    /// What `wf` says of the two slots, in terms of the model.
    proof fn lemma_slots(&self)
        requires
            self.wf(),
        ensures
            0 <= self.index() <= self.tokens().len(),
            self.current() == match self.current_token {
                Some(data) => Some(data@),
                None => None,
            },
            self.peek() == match self.peek_token {
                Some(data) => Some(data@),
                None => None,
            },
    {
        let p = self.pending();
        let i = self.index();
        assert(p == self.tokens().skip(i));
        if self.current_token is Some {
            assert(p[0] == self.current_token->0@);
            assert(p[0] == self.tokens()[i]);
            if self.peek_token is Some {
                assert(p[1] == self.peek_token->0@);
                assert(p[1] == self.tokens()[i + 1]);
            }
        }
    }

    /// A lexer over `text`, with nothing consumed.
    pub fn new(text: &'a str) -> (lexer: C1Lexer<'a>)
        ensures
            lexer.wf(),
            lexer.source() == text.spec_bytes(),
            lexer.index() == 0,
    {
        let mut scanner = Scanner::new(text);
        let ghost all = scanner.remaining();
        let current_token = scanner.next_token();
        let peek_token = scanner.next_token();
        let lexer = C1Lexer { scanner, current_token, peek_token };
        assert(lexer.pending() =~= all);
        assert(all =~= all.skip(0));
        lexer
    }

    /// The category of the current token, or `None` at the end of the text.
    pub fn current_token(&self) -> (r: Option<C1Token>)
        requires
            self.wf(),
        ensures
            r == match self.current() {
                Some(t) => Some(t.kind),
                None => None,
            },
    {
        proof {
            self.lemma_slots();
        }
        match &self.current_token {
            Some(data) => Some(data.token_type()),
            None => None,
        }
    }

    /// The category of the token after the current one, or `None` where the
    /// text has no such token.
    pub fn peek_token(&self) -> (r: Option<C1Token>)
        requires
            self.wf(),
        ensures
            r == match self.peek() {
                Some(t) => Some(t.kind),
                None => None,
            },
    {
        proof {
            self.lemma_slots();
        }
        match &self.peek_token {
            Some(data) => Some(data.token_type()),
            None => None,
        }
    }

    /// The text of the current token.
    pub fn current_text(&self) -> (r: Option<&str>)
        requires
            self.wf(),
        ensures
            match self.current() {
                Some(t) => r is Some && r->0.spec_bytes() == t.text,
                None => r is None,
            },
    {
        proof {
            self.lemma_slots();
        }
        match &self.current_token {
            Some(data) => Some(data.text()),
            None => None,
        }
    }

    /// The text of the token after the current one.
    pub fn peek_text(&self) -> (r: Option<&str>)
        requires
            self.wf(),
        ensures
            match self.peek() {
                Some(t) => r is Some && r->0.spec_bytes() == t.text,
                None => r is None,
            },
    {
        proof {
            self.lemma_slots();
        }
        match &self.peek_token {
            Some(data) => Some(data.text()),
            None => None,
        }
    }

    /// The number of the line on which the current token starts.
    pub fn current_line_number(&self) -> (r: Option<usize>)
        requires
            self.wf(),
        ensures
            match self.current() {
                Some(t) => r is Some && r->0 == t.line,
                None => r is None,
            },
    {
        proof {
            self.lemma_slots();
        }
        match &self.current_token {
            Some(data) => Some(data.line_number()),
            None => None,
        }
    }

    /// The number of the line on which the token after the current one starts.
    pub fn peek_line_number(&self) -> (r: Option<usize>)
        requires
            self.wf(),
        ensures
            match self.peek() {
                Some(t) => r is Some && r->0 == t.line,
                None => r is None,
            },
    {
        proof {
            self.lemma_slots();
        }
        match &self.peek_token {
            Some(data) => Some(data.line_number()),
            None => None,
        }
    }

    /// Consumes the current token: the next one becomes current, and a new
    /// one is read behind it. At the end of the text nothing changes.
    pub fn eat(&mut self)
        requires
            old(self).wf(),
        ensures
            final(self).wf(),
            final(self).source() == old(self).source(),
            final(self).index() == if old(self).index() < old(self).tokens().len() {
                old(self).index() + 1
            } else {
                old(self).index()
            },
    {
        proof {
            self.lemma_slots();
        }
        let ghost before = self.pending();
        self.current_token = self.peek_token;
        self.peek_token = self.scanner.next_token();
        proof {
            if old(self).current_token is Some {
                assert(self.pending() =~= before.skip(1));
                assert(before.skip(1) =~= self.tokens().skip(old(self).index() + 1));
            } else {
                assert(self.pending() =~= before);
            }
        }
    }
}

} // verus!
