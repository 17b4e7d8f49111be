//! The matching rules: which lexeme starts at a given position of a text.
//!
//! At every position exactly one lexeme starts. It is the longest prefix of the
//! remaining text that any rule matches; where a word is both a fixed spelling
//! and an identifier, the fixed spelling wins. Where no rule matches, the
//! lexeme is the single character at that position, with category `Error`.
//! The module `patterns` states the rules one by one and proves this of
//! `lexeme_at`.

use crate::bytes::{
    byte_is, class_at, closes_comment, comment_close, find_comment_close, lemma_comment_close,
    lemma_run_end, run_end, skip_run, spells, ByteClass, AMPERSAND, BANG, BAR, COMMA, EQUALS,
    GREATER, LEFT_BRACE, LEFT_PAREN, LESS, LOWER_E, MINUS, NEWLINE, PLUS, POINT, QUOTE,
    RIGHT_BRACE, RIGHT_PAREN, SEMICOLON, SLASH, STAR, UPPER_E,
};
use crate::token::C1Token;
use vstd::prelude::*;

verus! {

/// A lexeme found at some position: its category and the position just past it.
pub struct Lexeme {
    pub kind: C1Token,
    pub end: int,
}

/// The bytes of the lexemes with a fixed spelling: the keywords, the
/// operators and punctuation marks, the line break, and for `ConstBoolean` the
/// word `true` (its other word is `false_word`). Empty for the categories
/// whose lexemes vary.
pub open spec fn spelling(k: C1Token) -> Seq<u8> {
    match k {
        // bool
        C1Token::KwBoolean => seq![0x62, 0x6f, 0x6f, 0x6c],
        // do
        C1Token::KwDo => seq![0x64, 0x6f],
        // else
        C1Token::KwElse => seq![0x65, 0x6c, 0x73, 0x65],
        // float
        C1Token::KwFloat => seq![0x66, 0x6c, 0x6f, 0x61, 0x74],
        // for
        C1Token::KwFor => seq![0x66, 0x6f, 0x72],
        // if
        C1Token::KwIf => seq![0x69, 0x66],
        // int
        C1Token::KwInt => seq![0x69, 0x6e, 0x74],
        // printf
        C1Token::KwPrintf => seq![0x70, 0x72, 0x69, 0x6e, 0x74, 0x66],
        // return
        C1Token::KwReturn => seq![0x72, 0x65, 0x74, 0x75, 0x72, 0x6e],
        // void
        C1Token::KwVoid => seq![0x76, 0x6f, 0x69, 0x64],
        // while
        C1Token::KwWhile => seq![0x77, 0x68, 0x69, 0x6c, 0x65],
        // true
        C1Token::ConstBoolean => seq![0x74, 0x72, 0x75, 0x65],
        C1Token::Plus => seq![PLUS],
        C1Token::Minus => seq![MINUS],
        C1Token::Asterisk => seq![STAR],
        C1Token::Slash => seq![SLASH],
        C1Token::Assign => seq![EQUALS],
        C1Token::Equal => seq![EQUALS, EQUALS],
        C1Token::NotEqual => seq![BANG, EQUALS],
        C1Token::Less => seq![LESS],
        C1Token::Greater => seq![GREATER],
        C1Token::LessEqual => seq![LESS, EQUALS],
        C1Token::GreaterEqual => seq![GREATER, EQUALS],
        C1Token::And => seq![AMPERSAND, AMPERSAND],
        C1Token::Or => seq![BAR, BAR],
        C1Token::Comma => seq![COMMA],
        C1Token::Semicolon => seq![SEMICOLON],
        C1Token::LeftParenthesis => seq![LEFT_PAREN],
        C1Token::RightParenthesis => seq![RIGHT_PAREN],
        C1Token::LeftBrace => seq![LEFT_BRACE],
        C1Token::RightBrace => seq![RIGHT_BRACE],
        C1Token::Linebreak => seq![NEWLINE],
        _ => Seq::empty(),
    }
}

/// The bytes of the word `false`.
pub open spec fn false_word() -> Seq<u8> {
    // false
    seq![0x66, 0x61, 0x6c, 0x73, 0x65]
}

/// The category of a word made of a letter followed by letters and digits:
/// a keyword or a boolean constant where the whole word spells one, an
/// identifier otherwise.
pub open spec fn word_kind(w: Seq<u8>) -> C1Token {
    if w == spelling(C1Token::KwBoolean) {
        C1Token::KwBoolean
    } else if w == spelling(C1Token::KwDo) {
        C1Token::KwDo
    } else if w == spelling(C1Token::KwElse) {
        C1Token::KwElse
    } else if w == spelling(C1Token::KwFloat) {
        C1Token::KwFloat
    } else if w == spelling(C1Token::KwFor) {
        C1Token::KwFor
    } else if w == spelling(C1Token::KwIf) {
        C1Token::KwIf
    } else if w == spelling(C1Token::KwInt) {
        C1Token::KwInt
    } else if w == spelling(C1Token::KwPrintf) {
        C1Token::KwPrintf
    } else if w == spelling(C1Token::KwReturn) {
        C1Token::KwReturn
    } else if w == spelling(C1Token::KwVoid) {
        C1Token::KwVoid
    } else if w == spelling(C1Token::KwWhile) {
        C1Token::KwWhile
    } else if w == spelling(C1Token::ConstBoolean) || w == false_word() {
        C1Token::ConstBoolean
    } else {
        C1Token::Identifier
    }
}

/// The lexeme that starts with the letter at `i`: the maximal run of letters
/// and digits.
pub open spec fn word_at(s: Seq<u8>, i: int) -> Lexeme {
    let e = run_end(s, i, ByteClass::Alnum);
    Lexeme { kind: word_kind(s.subrange(i, e)), end: e }
}

/// Where an exponent that starts at `i` ends: `e` or `E`, an optional sign,
/// and one or more digits. `None` where no exponent starts at `i`.
pub open spec fn exponent_end(s: Seq<u8>, i: int) -> Option<int> {
    if byte_is(s, i, LOWER_E) || byte_is(s, i, UPPER_E) {
        let j = if byte_is(s, i + 1, PLUS) || byte_is(s, i + 1, MINUS) {
            i + 2
        } else {
            i + 1
        };
        if class_at(s, j, ByteClass::Digit) {
            Some(run_end(s, j, ByteClass::Digit))
        } else {
            None
        }
    } else {
        None
    }
}

/// The lexeme that starts with the digit at `i`: digits, a point and digits;
/// or digits and an exponent; or, where neither is there in full, the digits
/// alone as a `ConstInt`.
pub open spec fn number_at(s: Seq<u8>, i: int) -> Lexeme {
    let d = run_end(s, i, ByteClass::Digit);
    if byte_is(s, d, POINT) && class_at(s, d + 1, ByteClass::Digit) {
        Lexeme { kind: C1Token::ConstFloat, end: run_end(s, d + 1, ByteClass::Digit) }
    } else {
        match exponent_end(s, d) {
            Some(e) => Lexeme { kind: C1Token::ConstFloat, end: e },
            None => Lexeme { kind: C1Token::ConstInt, end: d },
        }
    }
}

/// The `Error` lexeme at `i`: the one character there, that is the byte at
/// `i` and the continuation bytes that follow it.
pub open spec fn error_at(s: Seq<u8>, i: int) -> Lexeme {
    Lexeme { kind: C1Token::Error, end: run_end(s, i + 1, ByteClass::Continuation) }
}

/// The lexeme that starts with the point at `i`: a point, digits and an
/// optional exponent. A point that no digit follows matches nothing.
pub open spec fn fraction_at(s: Seq<u8>, i: int) -> Lexeme {
    if class_at(s, i + 1, ByteClass::Digit) {
        let d = run_end(s, i + 1, ByteClass::Digit);
        match exponent_end(s, d) {
            Some(e) => Lexeme { kind: C1Token::ConstFloat, end: e },
            None => Lexeme { kind: C1Token::ConstFloat, end: d },
        }
    } else {
        error_at(s, i)
    }
}

/// The lexeme that starts with the double quote at `i`: a string constant
/// where the next double quote comes before any newline, nothing otherwise.
pub open spec fn string_at(s: Seq<u8>, i: int) -> Lexeme {
    let e = run_end(s, i + 1, ByteClass::StringBody);
    if byte_is(s, e, QUOTE) {
        Lexeme { kind: C1Token::ConstString, end: e + 1 }
    } else {
        error_at(s, i)
    }
}

/// The lexeme that starts with the slash at `i`.
///
/// `//` opens a line comment, which runs up to the next newline or to the end
/// of the text; the newline is no part of it. `/*` opens a block comment,
/// which runs through the first `*/` after it, whatever stands in between;
/// where no `*/` follows, the slash is the division operator, as any other
/// slash is.
pub open spec fn slash_at(s: Seq<u8>, i: int) -> Lexeme {
    if byte_is(s, i + 1, SLASH) {
        Lexeme { kind: C1Token::CPPComment, end: run_end(s, i + 2, ByteClass::LineBody) }
    } else if byte_is(s, i + 1, STAR) {
        let e = comment_close(s, i + 2);
        if closes_comment(s, e) {
            Lexeme { kind: C1Token::CComment, end: e + 2 }
        } else {
            Lexeme { kind: C1Token::Slash, end: i + 1 }
        }
    } else {
        Lexeme { kind: C1Token::Slash, end: i + 1 }
    }
}

/// The operator of two bytes that starts with `b` and ends with `c`, if there is one.
pub open spec fn double_operator(b: u8, c: u8) -> Option<C1Token> {
    if b == EQUALS && c == EQUALS {
        Some(C1Token::Equal)
    } else if b == BANG && c == EQUALS {
        Some(C1Token::NotEqual)
    } else if b == LESS && c == EQUALS {
        Some(C1Token::LessEqual)
    } else if b == GREATER && c == EQUALS {
        Some(C1Token::GreaterEqual)
    } else if b == AMPERSAND && c == AMPERSAND {
        Some(C1Token::And)
    } else if b == BAR && c == BAR {
        Some(C1Token::Or)
    } else {
        None
    }
}

/// The operator or punctuation mark that the single byte `b` spells, if it
/// spells one. The slash is not here: see `slash_at`.
pub open spec fn single_operator(b: u8) -> Option<C1Token> {
    if b == PLUS {
        Some(C1Token::Plus)
    } else if b == MINUS {
        Some(C1Token::Minus)
    } else if b == STAR {
        Some(C1Token::Asterisk)
    } else if b == EQUALS {
        Some(C1Token::Assign)
    } else if b == LESS {
        Some(C1Token::Less)
    } else if b == GREATER {
        Some(C1Token::Greater)
    } else if b == COMMA {
        Some(C1Token::Comma)
    } else if b == SEMICOLON {
        Some(C1Token::Semicolon)
    } else if b == LEFT_PAREN {
        Some(C1Token::LeftParenthesis)
    } else if b == RIGHT_PAREN {
        Some(C1Token::RightParenthesis)
    } else if b == LEFT_BRACE {
        Some(C1Token::LeftBrace)
    } else if b == RIGHT_BRACE {
        Some(C1Token::RightBrace)
    } else {
        None
    }
}

/// The lexeme that starts with the byte at `i`, where that byte is neither a
/// letter, a digit, a point, a double quote, a slash, a blank nor a newline:
/// an operator of two bytes before one of one byte, `Error` where it is neither.
pub open spec fn operator_at(s: Seq<u8>, i: int) -> Lexeme {
    let two = if i + 1 < s.len() {
        double_operator(s[i], s[i + 1])
    } else {
        None
    };
    match two {
        Some(k) => Lexeme { kind: k, end: i + 2 },
        None => match single_operator(s[i]) {
            Some(k) => Lexeme { kind: k, end: i + 1 },
            None => error_at(s, i),
        },
    }
}

/// The lexeme that starts at position `i` of `s`.
pub open spec fn lexeme_at(s: Seq<u8>, i: int) -> Lexeme
    recommends
        0 <= i < s.len(),
{
    let b = s[i];
    if ByteClass::Alnum.has(b) && !ByteClass::Digit.has(b) {
        word_at(s, i)
    } else if ByteClass::Digit.has(b) {
        number_at(s, i)
    } else if b == POINT {
        fraction_at(s, i)
    } else if b == QUOTE {
        string_at(s, i)
    } else if b == SLASH {
        slash_at(s, i)
    } else if ByteClass::Blank.has(b) {
        Lexeme { kind: C1Token::Whitespace, end: run_end(s, i, ByteClass::Blank) }
    } else if b == NEWLINE {
        Lexeme { kind: C1Token::Linebreak, end: i + 1 }
    } else {
        operator_at(s, i)
    }
}

/// Every lexeme is at least one byte long and ends inside the text. It ends
/// at the end of the text, before a byte that continues no character, or
/// after a byte of one character.
pub proof fn lemma_lexeme_end(s: Seq<u8>, i: int)
    requires
        0 <= i < s.len(),
    ensures
        i < lexeme_at(s, i).end <= s.len(),
        ({
            let e = lexeme_at(s, i).end;
            e == s.len() || !ByteClass::Continuation.has(s[e]) || s[e - 1] <= 0x7f
        }),
{
    lemma_run_end(s, i, ByteClass::Alnum);
    lemma_run_end(s, i, ByteClass::Blank);
    lemma_run_end(s, i + 1, ByteClass::Continuation);
    lemma_run_end(s, i + 1, ByteClass::StringBody);
    let d = run_end(s, i, ByteClass::Digit);
    lemma_run_end(s, i, ByteClass::Digit);
    lemma_digits_after(s, d);
    if i + 1 <= s.len() {
        let f = run_end(s, i + 1, ByteClass::Digit);
        lemma_run_end(s, i + 1, ByteClass::Digit);
        lemma_digits_after(s, f);
    }
    if i + 2 <= s.len() {
        lemma_run_end(s, i + 2, ByteClass::LineBody);
        lemma_comment_close(s, i + 2);
    }
}

/// The runs of digits that may follow position `d`, one or two bytes on.
proof fn lemma_digits_after(s: Seq<u8>, d: int)
    requires
        0 <= d <= s.len(),
    ensures
        d + 1 <= s.len() ==> d + 1 <= run_end(s, d + 1, ByteClass::Digit) <= s.len(),
        d + 2 <= s.len() ==> d + 2 <= run_end(s, d + 2, ByteClass::Digit) <= s.len(),
        forall|k: int|
            d + 1 <= k < run_end(s, d + 1, ByteClass::Digit) ==> ByteClass::Digit.has(
                #[trigger] s[k],
            ),
        forall|k: int|
            d + 2 <= k < run_end(s, d + 2, ByteClass::Digit) ==> ByteClass::Digit.has(
                #[trigger] s[k],
            ),
{
    if d + 1 <= s.len() {
        lemma_run_end(s, d + 1, ByteClass::Digit);
    }
    if d + 2 <= s.len() {
        lemma_run_end(s, d + 2, ByteClass::Digit);
    }
}

/// A lexeme that spells a keyword has the category of that keyword, although
/// it has the form of an identifier too. In the same way the words `true` and
/// `false` are boolean constants.
pub proof fn lemma_keyword_before_identifier(s: Seq<u8>, i: int, k: C1Token)
    requires
        0 <= i < s.len(),
        k.is_keyword() || k == C1Token::ConstBoolean,
        s.subrange(i, lexeme_at(s, i).end) == spelling(k) || (k == C1Token::ConstBoolean
            && s.subrange(i, lexeme_at(s, i).end) == false_word()),
    ensures
        lexeme_at(s, i).kind == k,
{
    lemma_lexeme_end(s, i);
    let w = s.subrange(i, lexeme_at(s, i).end);
    assert(w[0] == s[i]);
    // No two of the words agree in their first two letters.
    assert(spelling(C1Token::KwBoolean)[1] == 0x6f && spelling(C1Token::KwDo)[0] == 0x64);
    assert(spelling(C1Token::KwElse)[0] == 0x65 && spelling(C1Token::KwFloat)[1] == 0x6c);
    assert(spelling(C1Token::KwFor)[1] == 0x6f && spelling(C1Token::KwIf)[1] == 0x66);
    assert(spelling(C1Token::KwInt)[1] == 0x6e && spelling(C1Token::KwPrintf)[0] == 0x70);
    assert(spelling(C1Token::KwReturn)[0] == 0x72 && spelling(C1Token::KwVoid)[0] == 0x76);
    assert(spelling(C1Token::KwWhile)[0] == 0x77 && spelling(C1Token::ConstBoolean)[0] == 0x74);
    assert(false_word()[1] == 0x61 && false_word()[0] == 0x66);
    assert(spelling(C1Token::KwBoolean)[0] == 0x62 && spelling(C1Token::KwFloat)[0] == 0x66);
    assert(spelling(C1Token::KwFor)[0] == 0x66 && spelling(C1Token::KwIf)[0] == 0x69);
    assert(spelling(C1Token::KwInt)[0] == 0x69);
}

/// Tests whether position `i` exists and holds the byte `b`.
fn holds(bytes: &[u8], i: usize, b: u8) -> (r: bool)
    ensures
        r == byte_is(bytes@, i as int, b),
{
    i < bytes.len() && bytes[i] == b
}

/// Tests whether position `i` exists and holds a digit.
fn holds_digit(bytes: &[u8], i: usize) -> (r: bool)
    ensures
        r == class_at(bytes@, i as int, ByteClass::Digit),
{
    i < bytes.len() && ByteClass::Digit.contains(bytes[i])
}

/// Finds the category of the word from `start` to `end`.
fn classify_word(bytes: &[u8], start: usize, end: usize) -> (k: C1Token)
    requires
        start <= end <= bytes.len(),
    ensures
        k == word_kind(bytes@.subrange(start as int, end as int)),
{
    let kw_bool: [u8; 4] = [0x62, 0x6f, 0x6f, 0x6c];
    let kw_do: [u8; 2] = [0x64, 0x6f];
    let kw_else: [u8; 4] = [0x65, 0x6c, 0x73, 0x65];
    let kw_float: [u8; 5] = [0x66, 0x6c, 0x6f, 0x61, 0x74];
    let kw_for: [u8; 3] = [0x66, 0x6f, 0x72];
    let kw_if: [u8; 2] = [0x69, 0x66];
    let kw_int: [u8; 3] = [0x69, 0x6e, 0x74];
    let kw_printf: [u8; 6] = [0x70, 0x72, 0x69, 0x6e, 0x74, 0x66];
    let kw_return: [u8; 6] = [0x72, 0x65, 0x74, 0x75, 0x72, 0x6e];
    let kw_void: [u8; 4] = [0x76, 0x6f, 0x69, 0x64];
    let kw_while: [u8; 5] = [0x77, 0x68, 0x69, 0x6c, 0x65];
    let word_true: [u8; 4] = [0x74, 0x72, 0x75, 0x65];
    let word_false: [u8; 5] = [0x66, 0x61, 0x6c, 0x73, 0x65];
    proof {
        assert(kw_bool@ =~= spelling(C1Token::KwBoolean));
        assert(kw_do@ =~= spelling(C1Token::KwDo));
        assert(kw_else@ =~= spelling(C1Token::KwElse));
        assert(kw_float@ =~= spelling(C1Token::KwFloat));
        assert(kw_for@ =~= spelling(C1Token::KwFor));
        assert(kw_if@ =~= spelling(C1Token::KwIf));
        assert(kw_int@ =~= spelling(C1Token::KwInt));
        assert(kw_printf@ =~= spelling(C1Token::KwPrintf));
        assert(kw_return@ =~= spelling(C1Token::KwReturn));
        assert(kw_void@ =~= spelling(C1Token::KwVoid));
        assert(kw_while@ =~= spelling(C1Token::KwWhile));
        assert(word_true@ =~= spelling(C1Token::ConstBoolean));
        assert(word_false@ =~= false_word());
    }
    if spells(bytes, start, end, kw_bool.as_slice()) {
        C1Token::KwBoolean
    } else if spells(bytes, start, end, kw_do.as_slice()) {
        C1Token::KwDo
    } else if spells(bytes, start, end, kw_else.as_slice()) {
        C1Token::KwElse
    } else if spells(bytes, start, end, kw_float.as_slice()) {
        C1Token::KwFloat
    } else if spells(bytes, start, end, kw_for.as_slice()) {
        C1Token::KwFor
    } else if spells(bytes, start, end, kw_if.as_slice()) {
        C1Token::KwIf
    } else if spells(bytes, start, end, kw_int.as_slice()) {
        C1Token::KwInt
    } else if spells(bytes, start, end, kw_printf.as_slice()) {
        C1Token::KwPrintf
    } else if spells(bytes, start, end, kw_return.as_slice()) {
        C1Token::KwReturn
    } else if spells(bytes, start, end, kw_void.as_slice()) {
        C1Token::KwVoid
    } else if spells(bytes, start, end, kw_while.as_slice()) {
        C1Token::KwWhile
    } else if spells(bytes, start, end, word_true.as_slice()) || spells(
        bytes,
        start,
        end,
        word_false.as_slice(),
    ) {
        C1Token::ConstBoolean
    } else {
        C1Token::Identifier
    }
}

/// Scans an exponent that starts at `i`, if one does.
fn scan_exponent(bytes: &[u8], i: usize) -> (r: Option<usize>)
    requires
        i <= bytes.len(),
    ensures
        match r {
            Some(e) => exponent_end(bytes@, i as int) == Some(e as int) && i < e <= bytes.len(),
            None => exponent_end(bytes@, i as int) is None,
        },
{
    if holds(bytes, i, LOWER_E) || holds(bytes, i, UPPER_E) {
        let j: usize = if holds(bytes, i + 1, PLUS) || holds(bytes, i + 1, MINUS) {
            i + 2
        } else {
            i + 1
        };
        if holds_digit(bytes, j) {
            Some(skip_run(bytes, j, ByteClass::Digit))
        } else {
            None
        }
    } else {
        None
    }
}

/// Scans the `Error` lexeme at `i`.
fn scan_error(bytes: &[u8], i: usize) -> (r: (C1Token, usize))
    requires
        i < bytes.len(),
    ensures
        r.0 == error_at(bytes@, i as int).kind,
        r.1 == error_at(bytes@, i as int).end,
        i < r.1 <= bytes.len(),
{
    (C1Token::Error, skip_run(bytes, i + 1, ByteClass::Continuation))
}

/// Scans the lexeme that starts with the digit at `i`.
fn scan_number(bytes: &[u8], i: usize) -> (r: (C1Token, usize))
    requires
        i < bytes.len(),
        ByteClass::Digit.has(bytes@[i as int]),
    ensures
        r.0 == number_at(bytes@, i as int).kind,
        r.1 == number_at(bytes@, i as int).end,
        i < r.1 <= bytes.len(),
{
    let d = skip_run(bytes, i, ByteClass::Digit);
    if holds(bytes, d, POINT) && holds_digit(bytes, d + 1) {
        (C1Token::ConstFloat, skip_run(bytes, d + 1, ByteClass::Digit))
    } else {
        match scan_exponent(bytes, d) {
            Some(e) => (C1Token::ConstFloat, e),
            None => (C1Token::ConstInt, d),
        }
    }
}

/// Scans the lexeme that starts with the point at `i`.
fn scan_fraction(bytes: &[u8], i: usize) -> (r: (C1Token, usize))
    requires
        i < bytes.len(),
    ensures
        r.0 == fraction_at(bytes@, i as int).kind,
        r.1 == fraction_at(bytes@, i as int).end,
        i < r.1 <= bytes.len(),
{
    if holds_digit(bytes, i + 1) {
        let d = skip_run(bytes, i + 1, ByteClass::Digit);
        match scan_exponent(bytes, d) {
            Some(e) => (C1Token::ConstFloat, e),
            None => (C1Token::ConstFloat, d),
        }
    } else {
        scan_error(bytes, i)
    }
}

/// Scans the lexeme that starts with the double quote at `i`.
fn scan_string(bytes: &[u8], i: usize) -> (r: (C1Token, usize))
    requires
        i < bytes.len(),
    ensures
        r.0 == string_at(bytes@, i as int).kind,
        r.1 == string_at(bytes@, i as int).end,
        i < r.1 <= bytes.len(),
{
    let e = skip_run(bytes, i + 1, ByteClass::StringBody);
    if holds(bytes, e, QUOTE) {
        (C1Token::ConstString, e + 1)
    } else {
        scan_error(bytes, i)
    }
}

/// Scans the lexeme that starts with the slash at `i`.
fn scan_slash(bytes: &[u8], i: usize) -> (r: (C1Token, usize))
    requires
        i < bytes.len(),
    ensures
        r.0 == slash_at(bytes@, i as int).kind,
        r.1 == slash_at(bytes@, i as int).end,
        i < r.1 <= bytes.len(),
{
    if holds(bytes, i + 1, SLASH) {
        (C1Token::CPPComment, skip_run(bytes, i + 2, ByteClass::LineBody))
    } else if holds(bytes, i + 1, STAR) {
        let e = find_comment_close(bytes, i + 2);
        if holds(bytes, e, STAR) && holds(bytes, e + 1, SLASH) {
            (C1Token::CComment, e + 2)
        } else {
            (C1Token::Slash, i + 1)
        }
    } else {
        (C1Token::Slash, i + 1)
    }
}

/// Finds the operator of two bytes that `b` and `c` spell.
fn find_double_operator(b: u8, c: u8) -> (r: Option<C1Token>)
    ensures
        r == double_operator(b, c),
{
    if b == EQUALS && c == EQUALS {
        Some(C1Token::Equal)
    } else if b == BANG && c == EQUALS {
        Some(C1Token::NotEqual)
    } else if b == LESS && c == EQUALS {
        Some(C1Token::LessEqual)
    } else if b == GREATER && c == EQUALS {
        Some(C1Token::GreaterEqual)
    } else if b == AMPERSAND && c == AMPERSAND {
        Some(C1Token::And)
    } else if b == BAR && c == BAR {
        Some(C1Token::Or)
    } else {
        None
    }
}

/// Finds the operator or punctuation mark that `b` spells.
fn find_single_operator(b: u8) -> (r: Option<C1Token>)
    ensures
        r == single_operator(b),
{
    if b == PLUS {
        Some(C1Token::Plus)
    } else if b == MINUS {
        Some(C1Token::Minus)
    } else if b == STAR {
        Some(C1Token::Asterisk)
    } else if b == EQUALS {
        Some(C1Token::Assign)
    } else if b == LESS {
        Some(C1Token::Less)
    } else if b == GREATER {
        Some(C1Token::Greater)
    } else if b == COMMA {
        Some(C1Token::Comma)
    } else if b == SEMICOLON {
        Some(C1Token::Semicolon)
    } else if b == LEFT_PAREN {
        Some(C1Token::LeftParenthesis)
    } else if b == RIGHT_PAREN {
        Some(C1Token::RightParenthesis)
    } else if b == LEFT_BRACE {
        Some(C1Token::LeftBrace)
    } else if b == RIGHT_BRACE {
        Some(C1Token::RightBrace)
    } else {
        None
    }
}

/// Scans an operator, a punctuation mark or an `Error` lexeme at `i`.
fn scan_operator(bytes: &[u8], i: usize) -> (r: (C1Token, usize))
    requires
        i < bytes.len(),
    ensures
        r.0 == operator_at(bytes@, i as int).kind,
        r.1 == operator_at(bytes@, i as int).end,
        i < r.1 <= bytes.len(),
{
    let two = if i + 1 < bytes.len() {
        find_double_operator(bytes[i], bytes[i + 1])
    } else {
        None
    };
    match two {
        Some(k) => (k, i + 2),
        None => match find_single_operator(bytes[i]) {
            Some(k) => (k, i + 1),
            None => scan_error(bytes, i),
        },
    }
}

/// Scans the lexeme that starts at position `pos`: returns its category and
/// the position just past it.
pub fn scan_lexeme(bytes: &[u8], pos: usize) -> (r: (C1Token, usize))
    requires
        pos < bytes.len(),
    ensures
        r.0 == lexeme_at(bytes@, pos as int).kind,
        r.1 == lexeme_at(bytes@, pos as int).end,
        pos < r.1 <= bytes.len(),
{
    let b = bytes[pos];
    if ByteClass::Alnum.contains(b) && !ByteClass::Digit.contains(b) {
        let e = skip_run(bytes, pos, ByteClass::Alnum);
        (classify_word(bytes, pos, e), e)
    } else if ByteClass::Digit.contains(b) {
        scan_number(bytes, pos)
    } else if b == POINT {
        scan_fraction(bytes, pos)
    } else if b == QUOTE {
        scan_string(bytes, pos)
    } else if b == SLASH {
        scan_slash(bytes, pos)
    } else if ByteClass::Blank.contains(b) {
        (C1Token::Whitespace, skip_run(bytes, pos, ByteClass::Blank))
    } else if b == NEWLINE {
        (C1Token::Linebreak, pos + 1)
    } else {
        scan_operator(bytes, pos)
    }
}

} // verus!
