//! The scanner: a forward-only walk over a text that hands out its tokens one
//! by one, drops blanks and comments, and counts lines.

use crate::bytes::ByteClass;
use crate::lexeme::{lemma_lexeme_end, lexeme_at, scan_lexeme};
use crate::token::C1Token;
use vstd::prelude::*;
use vstd::string::StringSliceAdditionalSpecFns;
use vstd::utf8::{
    encode_utf8_valid_utf8, is_char_boundary, is_char_boundary_iff_not_is_continuation_byte,
    is_char_boundary_start_end_of_seq, length_of_first_scalar, pop_first_scalar, valid_utf8,
    valid_utf8_split,
};

verus! {

/// A token as the grammar engine sees it: its category, the position of its
/// first byte in the text, the bytes of its lexeme and the number of the line
/// on which it starts, counted from 1.
pub struct Token {
    pub kind: C1Token,
    pub start: int,
    pub text: Seq<u8>,
    pub line: int,
}

/// The tokens of `s` from position `pos` on, where `line` is the number of the
/// line that `pos` lies on.
///
/// Blanks and comments yield no token and leave the line number as it is.
/// A newline yields no token and starts the next line, but that a newline
/// inside a block comment is part of the comment and starts no line.
pub open spec fn tokens_from(s: Seq<u8>, pos: int, line: int) -> Seq<Token>
    decreases s.len() - pos,
{
    if 0 <= pos < s.len() {
        let lx = lexeme_at(s, pos);
        if lx.end <= pos || lx.end > s.len() {
            Seq::empty()
        } else if lx.kind == C1Token::Linebreak {
            tokens_from(s, lx.end, line + 1)
        } else if lx.kind.is_trivia() {
            tokens_from(s, lx.end, line)
        } else {
            seq![Token { kind: lx.kind, start: pos, text: s.subrange(pos, lx.end), line: line }]
                + tokens_from(s, lx.end, line)
        }
    } else {
        Seq::empty()
    }
}

/// The categories of the tokens of `ts`, in order.
pub open spec fn kinds(ts: Seq<Token>) -> Seq<C1Token> {
    ts.map_values(|t: Token| t.kind)
}

/// All tokens of the text `s`, in order. The first line has number 1.
pub open spec fn token_stream(s: Seq<u8>) -> Seq<Token> {
    tokens_from(s, 0, 1)
}

/// In well-formed text the byte after a byte of one character starts a character.
pub proof fn lemma_boundary_after_ascii(s: Seq<u8>, k: int)
    requires
        valid_utf8(s),
        0 <= k < s.len(),
        s[k] <= 0x7f,
    ensures
        is_char_boundary(s, k + 1),
    decreases s.len(),
{
    let w = length_of_first_scalar(s);
    let rest = pop_first_scalar(s);
    if k < w {
        assert(k == 0);
        assert(w == 1);
        reveal_with_fuel(is_char_boundary, 2);
    } else {
        lemma_boundary_after_ascii(rest, k - w);
        assert(rest[k - w] == s[k]);
    }
}

/// In well-formed text every lexeme that starts at a character boundary ends on one.
pub proof fn lemma_lexeme_ends_on_boundary(s: Seq<u8>, i: int)
    requires
        valid_utf8(s),
        0 <= i < s.len(),
    ensures
        is_char_boundary(s, lexeme_at(s, i).end),
{
    let e = lexeme_at(s, i).end;
    lemma_lexeme_end(s, i);
    if e == s.len() {
        is_char_boundary_start_end_of_seq(s);
    } else if !ByteClass::Continuation.has(s[e]) {
        is_char_boundary_iff_not_is_continuation_byte(s, e);
    } else {
        lemma_boundary_after_ascii(s, e - 1);
    }
}

/// A token as the scanner hands it out, with its text borrowed from the source.
#[derive(Clone, Copy)]
pub struct TokenData<'a> {
    token_type: C1Token,
    token_text: &'a str,
    token_line: usize,
    token_start: Ghost<int>,
}

impl<'a> View for TokenData<'a> {
    type V = Token;

    closed spec fn view(&self) -> Token {
        Token {
            kind: self.token_type,
            start: self.token_start@,
            text: self.token_text.spec_bytes(),
            line: self.token_line as int,
        }
    }
}

impl<'a> TokenData<'a> {
    /// The category of the token.
    pub fn token_type(&self) -> (r: C1Token)
        ensures
            r == self@.kind,
    {
        self.token_type
    }

    /// The text of the token.
    pub fn text(&self) -> (r: &'a str)
        ensures
            r.spec_bytes() == self@.text,
    {
        self.token_text
    }

    /// The number of the line on which the token starts.
    pub fn line_number(&self) -> (r: usize)
        ensures
            r == self@.line,
    {
        self.token_line
    }
}

/// The part of `text` between two character boundaries.
fn slice_of<'a>(text: &'a str, start: usize, end: usize) -> (r: &'a str)
    requires
        start < end <= text.spec_bytes().len(),
        is_char_boundary(text.spec_bytes(), start as int),
        is_char_boundary(text.spec_bytes(), end as int),
    ensures
        r.spec_bytes() == text.spec_bytes().subrange(start as int, end as int),
{
    let ghost s = text.spec_bytes();
    proof {
        encode_utf8_valid_utf8(text@);
        valid_utf8_split(s, end as int);
        is_char_boundary_iff_not_is_continuation_byte(s, start as int);
        is_char_boundary_iff_not_is_continuation_byte(s.subrange(0, end as int), start as int);
    }
    let (head, _) = text.split_at(end);
    let (_, tail) = head.split_at(start);
    assert(tail.spec_bytes() =~= s.subrange(start as int, end as int));
    tail
}

/// The scanner's state: the text, the position up to which it has been read,
/// and the number of the line that this position lies on.
pub struct Scanner<'a> {
    text: &'a str,
    position: usize,
    line: usize,
}

impl<'a> Scanner<'a> {
    /// The bytes of the text that is scanned.
    pub closed spec fn source(&self) -> Seq<u8> {
        self.text.spec_bytes()
    }

    /// The tokens that the scanner has not handed out yet.
    pub closed spec fn remaining(&self) -> Seq<Token> {
        tokens_from(self.source(), self.position as int, self.line as int)
    }

    /// The scanner stands inside its text, between two characters.
    pub closed spec fn wf(&self) -> bool {
        &&& self.position <= self.source().len()
        &&& is_char_boundary(self.source(), self.position as int)
        &&& self.position < self.source().len() ==> self.line <= self.position + 1
    }

    /// A scanner at the start of `text`, on line 1.
    pub fn new(text: &'a str) -> (r: Self)
        ensures
            r.wf(),
            r.source() == text.spec_bytes(),
            r.remaining() == token_stream(text.spec_bytes()),
    {
        proof {
            encode_utf8_valid_utf8(text@);
            is_char_boundary_start_end_of_seq(text.spec_bytes());
        }
        Scanner { text, position: 0, line: 1 }
    }

    /// Hands out the next token, or `None` at the end of the text.
    pub fn next_token(&mut self) -> (r: Option<TokenData<'a>>)
        requires
            old(self).wf(),
        ensures
            final(self).wf(),
            final(self).source() == old(self).source(),
            match r {
                Some(t) => old(self).remaining().len() > 0 && t@ == old(self).remaining()[0]
                    && final(self).remaining() == old(self).remaining().skip(1),
                None => old(self).remaining().len() == 0 && final(self).remaining().len() == 0,
            },
    {
        let text = self.text;
        let bytes = text.as_bytes();
        let ghost s = self.source();
        proof {
            encode_utf8_valid_utf8(text@);
        }
        while self.position < bytes.len()
            invariant
                self.wf(),
                self.text == text,
                s == text.spec_bytes(),
                s == old(self).source(),
                bytes@ == s,
                valid_utf8(s),
                self.remaining() == old(self).remaining(),
            decreases s.len() - self.position,
        {
            let start = self.position;
            let ghost line = self.line as int;
            let (kind, end) = scan_lexeme(bytes, start);
            proof {
                lemma_lexeme_ends_on_boundary(s, start as int);
                assert(self.remaining() == tokens_from(s, start as int, line));
            }
            match kind {
                C1Token::Linebreak => {
                    self.position = end;
                    // After the last byte no token follows, so the count may
                    // stop there; this keeps it within `usize`.
                    if end < bytes.len() {
                        self.line = self.line + 1;
                    }
                    assert(tokens_from(s, end as int, self.line as int) == tokens_from(
                        s,
                        end as int,
                        line + 1,
                    ));
                },
                C1Token::CComment | C1Token::CPPComment | C1Token::Whitespace => {
                    self.position = end;
                    assert(tokens_from(s, start as int, line) == tokens_from(s, end as int, line));
                },
                _ => {
                    let token = TokenData {
                        token_type: kind,
                        token_text: slice_of(text, start, end),
                        token_line: self.line,
                        token_start: Ghost(start as int),
                    };
                    self.position = end;
                    assert(self.remaining() =~= old(self).remaining().skip(1));
                    return Some(token);
                },
            }
        }
        None
    }
}

} // verus!
